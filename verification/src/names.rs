//! Names in order: lists of strings that ascend, without repetition.

use crate::text::{self, texts};
use vstd::prelude::*;

verus! {

/// Whether `left` comes before `right` in the order of strings: character by character, by the
/// characters' numbers, a proper prefix first.
pub open spec fn before(left: Seq<char>, right: Seq<char>) -> bool
    decreases left.len(),
{
    if right.len() == 0 {
        false
    } else if left.len() == 0 {
        true
    } else if left[0] != right[0] {
        (left[0] as int) < (right[0] as int)
    } else {
        before(left.skip(1), right.skip(1))
    }
}

/// Whether each name of `list` comes before the next ones.
pub open spec fn ascending(list: Seq<Seq<char>>) -> bool {
    forall|i: int, j: int| 0 <= i < j < list.len() ==> before(#[trigger] list[i], #[trigger] list[j])
}

/// Whether `list` holds exactly the names of `wanted`, in order and each once.
pub open spec fn ordered(list: Seq<Seq<char>>, wanted: spec_fn(Seq<char>) -> bool) -> bool {
    &&& ascending(list)
    &&& forall|name: Seq<char>| #[trigger] list.contains(name) <==> wanted(name)
}

/// `list`, which ascends, with `name` in its place.
pub open spec fn inserted(list: Seq<Seq<char>>, name: Seq<char>) -> Seq<Seq<char>>
    decreases list.len(),
{
    if list.len() == 0 {
        seq![name]
    } else if before(list.last(), name) {
        list.push(name)
    } else if list.last() == name {
        list
    } else {
        inserted(list.drop_last(), name).push(list.last())
    }
}

/// The names of `list` in order, each once.
pub open spec fn distinct(list: Seq<Seq<char>>) -> Seq<Seq<char>>
    decreases list.len(),
{
    if list.len() == 0 {
        list
    } else {
        inserted(distinct(list.drop_last()), list.last())
    }
}

proof fn inserted_is_ordered(list: Seq<Seq<char>>, name: Seq<char>)
    requires
        ascending(list),
    ensures
        ascending(inserted(list, name)),
        forall|other: Seq<char>| #[trigger]
            inserted(list, name).contains(other) <==> list.contains(other) || other == name,
    decreases list.len(),
{
    let now = inserted(list, name);
    if list.len() == 0 {
        assert(now[0] == name);
    } else {
        let last = list.last();
        let less = list.drop_last();
        if before(last, name) {
            assert forall|i: int, j: int| 0 <= i < j < now.len() implies before(
                #[trigger] now[i],
                #[trigger] now[j],
            ) by {
                if j == list.len() && i < list.len() - 1 {
                    assert(before(list[i], list[list.len() - 1]));
                    before_is_transitive(list[i], last, name);
                }
            }
            assert(now[list.len() as int] == name);
            assert forall|other: Seq<char>| #[trigger]
                now.contains(other) <==> list.contains(other) || other == name by {
                if list.contains(other) {
                    let i = choose|i: int| 0 <= i < list.len() && list[i] == other;
                    assert(now[i] == other);
                }
            }
        } else if last != name {
            before_is_total(last, name);
            inserted_is_ordered(less, name);
            let front = inserted(less, name);
            assert forall|i: int, j: int| 0 <= i < j < now.len() implies before(
                #[trigger] now[i],
                #[trigger] now[j],
            ) by {
                if j == front.len() {
                    assert(front.contains(front[i]));
                    if front[i] != name {
                        let k = choose|k: int| 0 <= k < less.len() && less[k] == front[i];
                        assert(before(list[k], list[list.len() - 1]));
                    }
                }
            }
            assert(now[front.len() as int] == last);
            assert forall|other: Seq<char>| #[trigger]
                now.contains(other) <==> list.contains(other) || other == name by {
                if list.contains(other) {
                    let i = choose|i: int| 0 <= i < list.len() && list[i] == other;
                    if i < less.len() {
                        assert(less[i] == other);
                        assert(less.contains(other));
                        assert(front.contains(other));
                        let k = choose|k: int| 0 <= k < front.len() && front[k] == other;
                        assert(now[k] == other);
                    }
                }
                if other == name {
                    assert(front.contains(name));
                    let k = choose|k: int| 0 <= k < front.len() && front[k] == name;
                    assert(now[k] == name);
                }
                if now.contains(other) {
                    let k = choose|k: int| 0 <= k < now.len() && now[k] == other;
                    if k < front.len() {
                        assert(front[k] == other);
                        assert(front.contains(other));
                        if less.contains(other) {
                            let i = choose|i: int| 0 <= i < less.len() && less[i] == other;
                            assert(list[i] == other);
                        }
                    } else {
                        assert(list[list.len() - 1] == other);
                    }
                }
            }
        } else {
            assert(list[list.len() - 1] == name);
        }
    }
}

/// The names of a list in order are the same names, in order and each once.
pub proof fn distinct_is_ordered(list: Seq<Seq<char>>)
    ensures
        ordered(distinct(list), |name: Seq<char>| list.contains(name)),
    decreases list.len(),
{
    if list.len() > 0 {
        let less = list.drop_last();
        distinct_is_ordered(less);
        inserted_is_ordered(distinct(less), list.last());
        assert forall|name: Seq<char>| #[trigger]
            distinct(list).contains(name) <==> list.contains(name) by {
            assert(distinct(less).contains(name) <==> less.contains(name));
            if list.contains(name) {
                let i = choose|i: int| 0 <= i < list.len() && list[i] == name;
                if i < less.len() {
                    assert(less[i] == name);
                }
            }
            if less.contains(name) {
                let i = choose|i: int| 0 <= i < less.len() && less[i] == name;
                assert(list[i] == name);
            }
            assert(list[list.len() - 1] == list.last());
        }
    }
}

/// No name comes before itself.
pub proof fn before_is_strict(name: Seq<char>)
    ensures
        !before(name, name),
    decreases name.len(),
{
    if name.len() > 0 {
        before_is_strict(name.skip(1));
    }
}

/// Of two different names one comes before the other.
pub proof fn before_is_total(left: Seq<char>, right: Seq<char>)
    ensures
        before(left, right) || before(right, left) || left == right,
    decreases left.len(),
{
    if left.len() == 0 || right.len() == 0 {
        if left.len() == 0 && right.len() == 0 {
            assert(left =~= right);
        }
    } else if left[0] == right[0] {
        before_is_total(left.skip(1), right.skip(1));
        if left.skip(1) == right.skip(1) {
            assert(left =~= seq![left[0]] + left.skip(1));
            assert(right =~= seq![right[0]] + right.skip(1));
        }
    }
}

/// What comes before a name comes before all that the name comes before.
pub proof fn before_is_transitive(left: Seq<char>, middle: Seq<char>, right: Seq<char>)
    requires
        before(left, middle),
        before(middle, right),
    ensures
        before(left, right),
    decreases left.len(),
{
    if left.len() > 0 && left[0] == middle[0] && middle[0] == right[0] {
        before_is_transitive(left.skip(1), middle.skip(1), right.skip(1));
    }
}

/// One set of names has one ascending list.
pub proof fn one_ascending_list(left: Seq<Seq<char>>, right: Seq<Seq<char>>)
    requires
        ascending(left),
        ascending(right),
        forall|name: Seq<char>| left.contains(name) <==> right.contains(name),
    ensures
        left == right,
    decreases left.len(),
{
    if left.len() == 0 {
        if right.len() > 0 {
            assert(right.contains(right[0]));
            assert(left.contains(right[0]));
        }
        assert(left =~= right);
    } else {
        assert(left.contains(left.last()));
        assert(right.contains(left.last()));
        let at = choose|i: int| 0 <= i < right.len() && right[i] == left.last();
        if at < right.len() - 1 {
            assert(before(right[at], right[right.len() - 1]));
            assert(right.contains(right.last()));
            assert(left.contains(right.last()));
            let other = choose|i: int| 0 <= i < left.len() && left[i] == right.last();
            if other < left.len() - 1 {
                assert(before(left[other], left[left.len() - 1]));
                before_is_transitive(left.last(), right.last(), left.last());
            }
            before_is_strict(left.last());
        }
        assert(left.last() == right.last());
        let l = left.drop_last();
        let r = right.drop_last();
        assert forall|name: Seq<char>| l.contains(name) <==> r.contains(name) by {
            before_is_strict(left.last());
            if l.contains(name) {
                let i = choose|i: int| 0 <= i < l.len() && l[i] == name;
                assert(before(left[i], left[left.len() - 1]));
                assert(left.contains(left[i]));
                assert(right.contains(name));
                let j = choose|j: int| 0 <= j < right.len() && right[j] == name;
                assert(r[j] == name);
            }
            if r.contains(name) {
                let i = choose|i: int| 0 <= i < r.len() && r[i] == name;
                assert(before(right[i], right[right.len() - 1]));
                assert(right.contains(right[i]));
                assert(left.contains(name));
                let j = choose|j: int| 0 <= j < left.len() && left[j] == name;
                assert(l[j] == name);
            }
        }
        one_ascending_list(l, r);
        assert(left =~= l.push(left.last()));
        assert(right =~= r.push(right.last()));
    }
}

/// Whether `left` comes before `right`.
pub fn is_before(left: &str, right: &str) -> (earlier: bool)
    ensures
        earlier == before(left@, right@),
{
    let a = text::chars_of(left);
    let b = text::chars_of(right);
    let mut at: usize = 0;
    assert(a@.skip(0) =~= a@);
    assert(b@.skip(0) =~= b@);
    while at < a.len() && at < b.len()
        invariant
            a@ == left@,
            b@ == right@,
            at <= a@.len(),
            at <= b@.len(),
            before(a@, b@) == before(a@.skip(at as int), b@.skip(at as int)),
        decreases a@.len() - at,
    {
        if a[at] != b[at] {
            assert(a@.skip(at as int)[0] == a@[at as int]);
            assert(b@.skip(at as int)[0] == b@[at as int]);
            return a[at] < b[at];
        }
        assert(a@.skip(at as int).skip(1) =~= a@.skip(at + 1));
        assert(b@.skip(at as int).skip(1) =~= b@.skip(at + 1));
        at = at + 1;
    }
    at < b.len()
}

/// Puts `name` into the ascending list `names`, where it is not there yet.
pub fn insert(names: &mut Vec<String>, name: &str)
    requires
        ascending(texts(old(names)@)),
    ensures
        ascending(texts(final(names)@)),
        texts(final(names)@) == inserted(texts(old(names)@), name@),
        forall|other: Seq<char>| #[trigger]
            texts(final(names)@).contains(other) <==> texts(old(names)@).contains(other) || other
                == name@,
{
    let ghost was = texts(names@);
    let mut at: usize = 0;
    while at < names.len() && is_before(names[at].as_str(), name)
        invariant
            texts(names@) == was,
            at <= names@.len(),
            forall|i: int| 0 <= i < at ==> before(#[trigger] was[i], name@),
        decreases names@.len() - at,
    {
        assert(was[at as int] == names@[at as int]@);
        at = at + 1;
    }
    if at < names.len() && text::same(names[at].as_str(), name) {
        assert(was[at as int] == name@);
        assert forall|other: Seq<char>| #[trigger]
            texts(names@).contains(other) <==> was.contains(other) || other == name@ by {
            assert(was[at as int] == name@);
        }
        proof {
            inserted_is_ordered(was, name@);
            one_ascending_list(was, inserted(was, name@));
        }
        return;
    }
    proof {
        if at < names.len() {
            assert(was[at as int] == names@[at as int]@);
            before_is_total(was[at as int], name@);
        }
    }
    names.insert(at, name.to_owned());
    proof {
        let now = texts(names@);
        assert(now =~= was.insert(at as int, name@));
        assert forall|i: int, j: int| 0 <= i < j < now.len() implies before(
            #[trigger] now[i],
            #[trigger] now[j],
        ) by {
            if i < at && j > at {
                assert(before(was[i], was[j - 1]));
            } else if i < at && j < at {
                assert(before(was[i], was[j]));
            } else if i == at {
                if j - 1 > at {
                    assert(before(was[at as int], was[j - 1]));
                    before_is_transitive(name@, was[at as int], was[j - 1]);
                }
            } else if i > at {
                assert(before(was[i - 1], was[j - 1]));
            }
        }
        assert forall|other: Seq<char>| #[trigger]
            now.contains(other) <==> was.contains(other) || other == name@ by {
            assert(now[at as int] == name@);
            if was.contains(other) {
                let i = choose|i: int| 0 <= i < was.len() && was[i] == other;
                if i < at {
                    assert(now[i] == other);
                } else {
                    assert(now[i + 1] == other);
                }
            }
            if now.contains(other) {
                let i = choose|i: int| 0 <= i < now.len() && now[i] == other;
                if i < at {
                    assert(was[i] == other);
                } else if i > at {
                    assert(was[i - 1] == other);
                }
            }
        }
        inserted_is_ordered(was, name@);
        one_ascending_list(now, inserted(was, name@));
    }
}

/// The names of `list` in order, each once.
pub fn distinct_of(list: &Vec<String>) -> (names: Vec<String>)
    ensures
        texts(names@) == distinct(texts(list@)),
        ascending(texts(names@)),
{
    let mut names: Vec<String> = Vec::new();
    let mut at: usize = 0;
    assert(texts(names@) =~= distinct(texts(list@).take(0)));
    while at < list.len()
        invariant
            at <= list@.len(),
            ascending(texts(names@)),
            texts(names@) == distinct(texts(list@).take(at as int)),
        decreases list@.len() - at,
    {
        proof {
            let now = texts(list@).take(at + 1);
            assert(now.drop_last() =~= texts(list@).take(at as int));
            assert(now.last() == list@[at as int]@);
        }
        insert(&mut names, list[at].as_str());
        at = at + 1;
    }
    assert(texts(list@).take(at as int) =~= texts(list@));
    names
}

} // verus!
