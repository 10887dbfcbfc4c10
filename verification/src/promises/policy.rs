//! What a policy file says: every value that is written is kept, and nothing else is.

use crate::config::{
    self, deny_kind, direct_rule, flag_rule, flattened, globs_among, internal_rule, is_glob_text,
    names_among, require_kind, rules_below, table_features, table_rules, without_graph,
    without_offsets, FeatureValue, Located, PatternView, RawConfig, RawRule, RawRuleSpec,
    RuleKindView, RuleView, TableView,
};
use crate::features::{selection_text, SelectionView};
use crate::names;
use crate::order::{self, by_offset};
use crate::text::texts;
use vstd::prelude::*;

verus! {

/// Whether `value` is one of the strings of a written list.
pub open spec fn is_written(list: Vec<String>, value: Seq<char>) -> bool {
    exists|i: int| 0 <= i < list@.len() && (#[trigger] list@[i])@ == value
}

/// Whether a word has one of the three characters that make it a glob.
pub open spec fn is_wild(word: Seq<char>) -> bool {
    word.contains('*') || word.contains('?') || word.contains('[')
}

pub(crate) proof fn wild_is_glob(word: Seq<char>)
    ensures
        is_wild(word) == is_glob_text(word),
{
    if is_glob_text(word) {
        let i = choose|i: int|
            0 <= i < word.len() && (#[trigger] word[i] == '*' || word[i] == '?' || word[i] == '[');
        assert(word.contains(word[i]));
    }
    if is_wild(word) {
        let c = if word.contains('*') {
            '*'
        } else if word.contains('?') {
            '?'
        } else {
            '['
        };
        assert(word.contains(c));
        let i = choose|i: int| 0 <= i < word.len() && word[i] == c;
        assert(word[i] == '*' || word[i] == '?' || word[i] == '[');
    }
}

pub(crate) proof fn written_is_listed(list: Vec<String>, value: Seq<char>)
    ensures
        is_written(list, value) == texts(list@).contains(value),
{
    if is_written(list, value) {
        let i = choose|i: int| 0 <= i < list@.len() && (#[trigger] list@[i])@ == value;
        assert(texts(list@)[i] == value);
    }
    if texts(list@).contains(value) {
        let i = choose|i: int| 0 <= i < texts(list@).len() && texts(list@)[i] == value;
        assert(list@[i]@ == value);
    }
}

proof fn words_are_parted(list: Seq<Seq<char>>, upto: int, word: Seq<char>)
    requires
        0 <= upto <= list.len(),
    ensures
        names_among(list, upto).contains(word) == (list.take(upto).contains(word) && !is_wild(word)),
        globs_among(list, upto).contains(word) == (list.take(upto).contains(word) && is_wild(word)),
    decreases upto,
{
    wild_is_glob(word);
    if upto > 0 {
        words_are_parted(list, upto - 1, word);
        let last = list[upto - 1];
        let less = list.take(upto - 1);
        let now = list.take(upto);
        assert(now =~= less.push(last));
        pushed_is_held(less, last, word);
        pushed_is_held(names_among(list, upto - 1), last, word);
        pushed_is_held(globs_among(list, upto - 1), last, word);
    }
}

pub(crate) proof fn pushed_is_held<T>(list: Seq<T>, last: T, item: T)
    ensures
        list.push(last).contains(item) == (list.contains(item) || item == last),
{
    let now = list.push(last);
    if list.contains(item) {
        let i = choose|i: int| 0 <= i < list.len() && list[i] == item;
        assert(now[i] == item);
    }
    assert(now[list.len() as int] == last);
    if now.contains(item) {
        let i = choose|i: int| 0 <= i < now.len() && now[i] == item;
        if i < list.len() {
            assert(list[i] == item);
        }
    }
}

/// Whether a `deny` rule denies what is written and nothing else: the words without `*`, `?` and
/// `[` are its names, the others its globs, and it shows the list as it was written.
pub open spec fn denies_the_written(kind: RuleKindView, list: Vec<String>) -> bool {
    kind matches RuleKindView::Deny { exact, globs, raw } && {
        &&& forall|word: Seq<char>| #[trigger]
            exact.contains(word) <==> is_written(list, word) && !is_wild(word)
        &&& forall|word: Seq<char>| #[trigger]
            globs.contains(word) <==> is_written(list, word) && is_wild(word)
        &&& raw.len() == list@.len()
        &&& forall|i: int| 0 <= i < raw.len() ==> #[trigger] raw[i] == list@[i]@
    }
}

/// A `deny` list that compiles keeps every value, whatever its place in the list, as a name or as
/// a glob, and keeps nothing that was not written.
pub proof fn every_denied_value_is_kept(cfg: RawConfig, written: Located<Vec<String>>)
    requires
        deny_kind(cfg, written) is Ok,
    ensures
        denies_the_written(deny_kind(cfg, written)->Ok_0, written.value),
{
    let list = texts(written.value@);
    let count = list.len() as int;
    let exact = names::distinct(names_among(list, count));
    let globs = globs_among(list, count);
    names::distinct_is_ordered(names_among(list, count));
    assert(list.take(count) =~= list);
    assert forall|word: Seq<char>| #[trigger] exact.contains(word) <==> is_written(
        written.value,
        word,
    ) && !is_wild(word) by {
        words_are_parted(list, count, word);
        written_is_listed(written.value, word);
    }
    assert forall|word: Seq<char>| #[trigger] globs.contains(word) <==> is_written(
        written.value,
        word,
    ) && is_wild(word) by {
        words_are_parted(list, count, word);
        written_is_listed(written.value, word);
    }
}

/// Whether a `require` rule asks for what is written, word by word: each word by its name, or as
/// a glob when it has one of `*`, `?` and `[`.
pub open spec fn asks_for_the_written(kind: RuleKindView, list: Vec<String>) -> bool {
    kind matches RuleKindView::Require(patterns) && {
        &&& patterns.len() == list@.len()
        &&& forall|i: int|
            0 <= i < patterns.len() ==> #[trigger] patterns[i] == if is_wild(list@[i]@) {
                PatternView::Glob(list@[i]@)
            } else {
                PatternView::Exact(list@[i]@)
            }
    }
}

/// A `require` list that compiles asks for every value, each in its place.
pub proof fn every_required_value_is_kept(cfg: RawConfig, written: Located<Vec<String>>)
    requires
        require_kind(cfg, written) is Ok,
    ensures
        asks_for_the_written(require_kind(cfg, written)->Ok_0, written.value),
{
    let list = texts(written.value@);
    let patterns = require_kind(cfg, written)->Ok_0->Require_0;
    assert forall|i: int| 0 <= i < patterns.len() implies #[trigger] patterns[i] == if is_wild(
        written.value@[i]@,
    ) {
        PatternView::Glob(written.value@[i]@)
    } else {
        PatternView::Exact(written.value@[i]@)
    } by {
        assert(list[i] == written.value@[i]@);
        wild_is_glob(list[i]);
    }
}

/// Whether a list of names that is compared exactly holds what is written and nothing else, in
/// order and each name once.
pub open spec fn lists_the_written(names: Seq<Seq<char>>, list: Vec<String>) -> bool {
    &&& forall|name: Seq<char>| #[trigger] names.contains(name) <==> is_written(list, name)
    &&& forall|i: int, j: int|
        0 <= i < j < names.len() ==> names::before(#[trigger] names[i], #[trigger] names[j])
}

proof fn exact_lists_are_kept(list: Vec<String>)
    ensures
        lists_the_written(names::distinct(texts(list@)), list),
{
    let names = names::distinct(texts(list@));
    names::distinct_is_ordered(texts(list@));
    assert forall|name: Seq<char>| #[trigger] names.contains(name) <==> is_written(list, name) by {
        written_is_listed(list, name);
    }
}

/// Whether a rule reads the closure that the `features` key of its table asks for: the unified
/// one without the key or under `unified`, and otherwise that of the word or of the list.
pub open spec fn reads_as_written(
    features: Option<(SelectionView, (Seq<char>, nat, nat))>,
    written: Option<Located<FeatureValue>>,
) -> bool {
    match written {
        None => features is None,
        Some(written) => match written.value {
            FeatureValue::Named(word) => {
                &&& features is None <==> word@ == "unified"@
                &&& features matches Some((selection, _)) ==> {
                    &&& selection == SelectionView::Nothing <==> word@ == "none"@
                    &&& selection == SelectionView::Default <==> word@ == "default"@
                    &&& selection == SelectionView::All <==> word@ == "all"@
                    &&& !(selection is List)
                    &&& selection_text(selection) == "\""@ + word@ + "\""@
                }
            },
            FeatureValue::List(list) => features matches Some((SelectionView::List(asked), _)) && {
                &&& asked.len() == list@.len()
                &&& forall|i: int| 0 <= i < asked.len() ==> #[trigger] asked[i] == list@[i]@
            },
        },
    }
}

pub(crate) proof fn words_differ()
    ensures
        "none"@ != "default"@,
        "none"@ != "all"@,
        "none"@ != "unified"@,
        "default"@ != "all"@,
        "default"@ != "unified"@,
        "all"@ != "unified"@,
        "\"none\""@ == "\""@ + "none"@ + "\""@,
        "\"default\""@ == "\""@ + "default"@ + "\""@,
        "\"all\""@ == "\""@ + "all"@ + "\""@,
{
    reveal_strlit("none");
    reveal_strlit("default");
    reveal_strlit("all");
    reveal_strlit("unified");
    reveal_strlit("\"");
    reveal_strlit("\"none\"");
    reveal_strlit("\"default\"");
    reveal_strlit("\"all\"");
    assert("none"@[0] != "default"@[0]);
    assert("none"@[0] != "all"@[0]);
    assert("none"@[0] != "unified"@[0]);
    assert("default"@[0] != "all"@[0]);
    assert("default"@[0] != "unified"@[0]);
    assert("all"@[0] != "unified"@[0]);
    assert("\"none\""@ =~= "\""@ + "none"@ + "\""@);
    assert("\"default\""@ =~= "\""@ + "default"@ + "\""@);
    assert("\"all\""@ =~= "\""@ + "all"@ + "\""@);
}

/// A `features` key that is accepted selects what its word or its list says, so that the
/// selection, spelled out again, is the word that was written.
pub proof fn selections_are_as_written(
    cfg: RawConfig,
    package: Seq<char>,
    written: Option<Located<FeatureValue>>,
)
    requires
        table_features(cfg, package, written) is Ok,
    ensures
        reads_as_written(table_features(cfg, package, written)->Ok_0, written),
{
    words_differ();
    if let Some(located) = written {
        if let FeatureValue::List(list) = located.value {
            let asked = (table_features(cfg, package, written)->Ok_0->0).0->List_0;
            assert forall|i: int| 0 <= i < asked.len() implies #[trigger] asked[i] == list@[i]@ by {
                assert(asked[i] == texts(list@)[i]);
            }
        }
    }
}

/// Whether `rule` is the rule of `key` in the table of `package`, whose `features` key is
/// `features`.
pub open spec fn is_rule_of(
    rule: RuleView,
    package: Seq<char>,
    key: Seq<char>,
    features: Option<Located<FeatureValue>>,
) -> bool {
    &&& rule.package == package
    &&& rule.id == "rules."@ + package + "."@ + key
    &&& reads_as_written(rule.features, features)
}

/// Whether `rule` is what some key of a table says: its kind is that of the key, its operands are
/// those that are written there, and a flag that is `false` makes no rule.
pub open spec fn is_said_by(rule: RuleView, package: Seq<char>, spec: RawRuleSpec) -> bool {
    ||| spec.deny matches Some(written) && is_rule_of(rule, package, "deny"@, spec.features)
        && denies_the_written(rule.kind, written.value)
    ||| spec.require matches Some(written) && is_rule_of(rule, package, "require"@, spec.features)
        && asks_for_the_written(rule.kind, written.value)
    ||| spec.internal matches Some(written) && is_rule_of(rule, package, "internal"@, spec.features)
        && rule.kind is Internal && lists_the_written(rule.kind->Internal_0, written.value)
    ||| spec.direct matches Some(written) && is_rule_of(rule, package, "direct"@, spec.features)
        && rule.kind is Direct && lists_the_written(rule.kind->Direct_0, written.value)
    ||| spec.leaf matches Some(written) && written.value && is_rule_of(
        rule,
        package,
        "leaf"@,
        spec.features,
    ) && rule.kind is Leaf
    ||| spec.sealed matches Some(written) && written.value && is_rule_of(
        rule,
        package,
        "sealed"@,
        spec.features,
    ) && rule.kind is Sealed
}

/// How many rules a table makes: one for each list and for each flag that is set.
pub open spec fn keys_of(spec: RawRuleSpec) -> int {
    (if spec.deny is Some {
        1int
    } else {
        0
    }) + (if spec.require is Some {
        1int
    } else {
        0
    }) + (if spec.internal is Some {
        1int
    } else {
        0
    }) + (if spec.direct is Some {
        1int
    } else {
        0
    }) + (if spec.leaf is Some && spec.leaf->0.value {
        1int
    } else {
        0
    }) + (if spec.sealed is Some && spec.sealed->0.value {
        1int
    } else {
        0
    })
}

/// Whether every key of a table that is set has its rule among `rules`.
pub open spec fn are_said_by(rules: Seq<RuleView>, package: Seq<char>, spec: RawRuleSpec) -> bool {
    &&& spec.deny matches Some(written) ==> exists|r: int|
        0 <= r < rules.len() && is_rule_of(#[trigger] rules[r], package, "deny"@, spec.features)
            && denies_the_written(rules[r].kind, written.value)
    &&& spec.require matches Some(written) ==> exists|r: int|
        0 <= r < rules.len() && is_rule_of(#[trigger] rules[r], package, "require"@, spec.features)
            && asks_for_the_written(rules[r].kind, written.value)
    &&& spec.internal matches Some(written) ==> exists|r: int|
        0 <= r < rules.len() && is_rule_of(#[trigger] rules[r], package, "internal"@, spec.features)
            && rules[r].kind is Internal && lists_the_written(
            rules[r].kind->Internal_0,
            written.value,
        )
    &&& spec.direct matches Some(written) ==> exists|r: int|
        0 <= r < rules.len() && is_rule_of(#[trigger] rules[r], package, "direct"@, spec.features)
            && rules[r].kind is Direct && lists_the_written(rules[r].kind->Direct_0, written.value)
    &&& spec.leaf is Some && spec.leaf->0.value ==> exists|r: int|
        0 <= r < rules.len() && is_rule_of(#[trigger] rules[r], package, "leaf"@, spec.features)
            && rules[r].kind is Leaf
    &&& spec.sealed is Some && spec.sealed->0.value ==> exists|r: int|
        0 <= r < rules.len() && is_rule_of(#[trigger] rules[r], package, "sealed"@, spec.features)
            && rules[r].kind is Sealed
}

pub(crate) proof fn sorting_keeps_items<T>(items: Seq<(usize, T)>, item: T)
    ensures
        without_offsets(by_offset(items)).contains(item) == without_offsets(items).contains(item),
        without_offsets(by_offset(items)).len() == items.len(),
{
    order::sorting_is_sorting(items);
    let sorted = by_offset(items);
    sorted.to_multiset_ensures();
    items.to_multiset_ensures();
    if without_offsets(sorted).contains(item) {
        let i = choose|i: int|
            0 <= i < without_offsets(sorted).len() && without_offsets(sorted)[i] == item;
        assert(sorted.contains(sorted[i]));
        assert(sorted.to_multiset().count(sorted[i]) > 0);
        assert(items.contains(sorted[i]));
        let j = choose|j: int| 0 <= j < items.len() && items[j] == sorted[i];
        assert(without_offsets(items)[j] == item);
    }
    if without_offsets(items).contains(item) {
        let i = choose|i: int|
            0 <= i < without_offsets(items).len() && without_offsets(items)[i] == item;
        assert(items.contains(items[i]));
        assert(items.to_multiset().count(items[i]) > 0);
        assert(sorted.contains(items[i]));
        let j = choose|j: int| 0 <= j < sorted.len() && sorted[j] == items[i];
        assert(without_offsets(sorted)[j] == item);
    }
}

/// The rules that a table makes, one after the other, before they are put in order.
spec fn made(table: TableView, spec: RawRuleSpec, deny: Option<(usize, RuleKindView)>, require: Option<
    (usize, RuleKindView),
>) -> Seq<(usize, RuleView)> {
    let rules = table.with(Seq::empty(), "internal"@, internal_rule(spec));
    let rules = table.with(rules, "deny"@, deny);
    let rules = table.with(rules, "require"@, require);
    let rules = table.with(rules, "leaf"@, flag_rule(spec.leaf, RuleKindView::Leaf));
    let rules = table.with(rules, "direct"@, direct_rule(spec));
    table.with(rules, "sealed"@, flag_rule(spec.sealed, RuleKindView::Sealed))
}

/// The rule of `key`, by its kind.
spec fn rule_with(table: TableView, key: Seq<char>, rule: (usize, RuleKindView)) -> RuleView {
    RuleView {
        id: "rules."@ + table.package + "."@ + key,
        package: table.package,
        kind: rule.1,
        span: config::rule_place(table.cfg, rule.0),
        features: table.features,
    }
}

proof fn one_more_rule(
    table: TableView,
    rules: Seq<(usize, RuleView)>,
    key: Seq<char>,
    rule: Option<(usize, RuleKindView)>,
    item: RuleView,
)
    ensures
        without_offsets(table.with(rules, key, rule)).contains(item) == (without_offsets(
            rules,
        ).contains(item) || (rule is Some && item == rule_with(table, key, rule->0))),
        table.with(rules, key, rule).len() == rules.len() + if rule is Some {
            1int
        } else {
            0
        },
{
    if let Some(found) = rule {
        let now = table.with(rules, key, rule);
        assert(without_offsets(now) =~= without_offsets(rules).push(rule_with(table, key, found)));
        pushed_is_held(without_offsets(rules), rule_with(table, key, found), item);
    }
}

proof fn made_are(
    table: TableView,
    spec: RawRuleSpec,
    deny: Option<(usize, RuleKindView)>,
    require: Option<(usize, RuleKindView)>,
    item: RuleView,
)
    ensures
        table_rules(table, spec, deny, require).contains(item) == {
            ||| spec.internal is Some && item == rule_with(
                table,
                "internal"@,
                internal_rule(spec)->0,
            )
            ||| deny is Some && item == rule_with(table, "deny"@, deny->0)
            ||| require is Some && item == rule_with(table, "require"@, require->0)
            ||| spec.leaf is Some && spec.leaf->0.value && item == rule_with(
                table,
                "leaf"@,
                (spec.leaf->0.start, RuleKindView::Leaf),
            )
            ||| spec.direct is Some && item == rule_with(table, "direct"@, direct_rule(spec)->0)
            ||| spec.sealed is Some && spec.sealed->0.value && item == rule_with(
                table,
                "sealed"@,
                (spec.sealed->0.start, RuleKindView::Sealed),
            )
        },
        table_rules(table, spec, deny, require).len() == (if deny is Some {
            1int
        } else {
            0
        }) + (if require is Some {
            1int
        } else {
            0
        }) + (if spec.internal is Some {
            1int
        } else {
            0
        }) + (if spec.direct is Some {
            1int
        } else {
            0
        }) + (if spec.leaf is Some && spec.leaf->0.value {
            1int
        } else {
            0
        }) + (if spec.sealed is Some && spec.sealed->0.value {
            1int
        } else {
            0
        }),
{
    let none = Seq::<(usize, RuleView)>::empty();
    assert(!without_offsets(none).contains(item));
    let first = table.with(none, "internal"@, internal_rule(spec));
    one_more_rule(table, none, "internal"@, internal_rule(spec), item);
    let second = table.with(first, "deny"@, deny);
    one_more_rule(table, first, "deny"@, deny, item);
    let third = table.with(second, "require"@, require);
    one_more_rule(table, second, "require"@, require, item);
    let leaf = flag_rule(spec.leaf, RuleKindView::Leaf);
    let fourth = table.with(third, "leaf"@, leaf);
    one_more_rule(table, third, "leaf"@, leaf, item);
    let fifth = table.with(fourth, "direct"@, direct_rule(spec));
    one_more_rule(table, fourth, "direct"@, direct_rule(spec), item);
    let sealed = flag_rule(spec.sealed, RuleKindView::Sealed);
    one_more_rule(table, fifth, "sealed"@, sealed, item);
    sorting_keeps_items(made(table, spec, deny, require), item);
}

/// The rules of a table are what its keys say: one rule for each key that is set, with what is
/// written there, and no other rule.
pub proof fn a_table_says_its_keys(cfg: RawConfig, package: Seq<char>, spec: RawRuleSpec)
    requires
        flattened(cfg, package, spec) is Ok,
    ensures
        ({
            let rules = flattened(cfg, package, spec)->Ok_0;
            &&& are_said_by(rules, package, spec)
            &&& rules.len() == keys_of(spec)
            &&& forall|r: int|
                0 <= r < rules.len() ==> is_said_by(#[trigger] rules[r], package, spec)
        }),
{
    let rules = flattened(cfg, package, spec)->Ok_0;
    let features = table_features(cfg, package, spec.features)->Ok_0;
    let table = TableView { cfg, package, features };
    let deny = config::deny_rule(cfg, spec)->Ok_0;
    let require = config::require_rule(cfg, spec)->Ok_0;
    selections_are_as_written(cfg, package, spec.features);
    if let Some(written) = spec.deny {
        every_denied_value_is_kept(cfg, written);
        let rule = rule_with(table, "deny"@, deny->0);
        made_are(table, spec, deny, require, rule);
        let r = choose|r: int| 0 <= r < rules.len() && rules[r] == rule;
        assert(is_rule_of(rules[r], package, "deny"@, spec.features));
    }
    if let Some(written) = spec.require {
        every_required_value_is_kept(cfg, written);
        let rule = rule_with(table, "require"@, require->0);
        made_are(table, spec, deny, require, rule);
        let r = choose|r: int| 0 <= r < rules.len() && rules[r] == rule;
        assert(is_rule_of(rules[r], package, "require"@, spec.features));
    }
    if let Some(written) = spec.internal {
        exact_lists_are_kept(written.value);
        let rule = rule_with(table, "internal"@, internal_rule(spec)->0);
        made_are(table, spec, deny, require, rule);
        let r = choose|r: int| 0 <= r < rules.len() && rules[r] == rule;
        assert(is_rule_of(rules[r], package, "internal"@, spec.features));
    }
    if let Some(written) = spec.direct {
        exact_lists_are_kept(written.value);
        let rule = rule_with(table, "direct"@, direct_rule(spec)->0);
        made_are(table, spec, deny, require, rule);
        let r = choose|r: int| 0 <= r < rules.len() && rules[r] == rule;
        assert(is_rule_of(rules[r], package, "direct"@, spec.features));
    }
    if spec.leaf is Some && spec.leaf->0.value {
        let rule = rule_with(table, "leaf"@, (spec.leaf->0.start, RuleKindView::Leaf));
        made_are(table, spec, deny, require, rule);
        let r = choose|r: int| 0 <= r < rules.len() && rules[r] == rule;
        assert(is_rule_of(rules[r], package, "leaf"@, spec.features));
    }
    if spec.sealed is Some && spec.sealed->0.value {
        let rule = rule_with(table, "sealed"@, (spec.sealed->0.start, RuleKindView::Sealed));
        made_are(table, spec, deny, require, rule);
        let r = choose|r: int| 0 <= r < rules.len() && rules[r] == rule;
        assert(is_rule_of(rules[r], package, "sealed"@, spec.features));
    }
    made_are(table, spec, deny, require, arbitrary());
    assert forall|r: int| 0 <= r < rules.len() implies is_said_by(
        #[trigger] rules[r],
        package,
        spec,
    ) by {
        assert(rules.contains(rules[r]));
        made_are(table, spec, deny, require, rules[r]);
    }
}

/// The byte at which the key of a rule is written in its table.
pub open spec fn key_start(spec: RawRuleSpec, kind: RuleKindView) -> usize {
    match kind {
        RuleKindView::Deny { .. } => spec.deny->0.start,
        RuleKindView::Require(_) => spec.require->0.start,
        RuleKindView::Internal(_) => spec.internal->0.start,
        RuleKindView::Leaf => spec.leaf->0.start,
        RuleKindView::Direct(_) => spec.direct->0.start,
        RuleKindView::Sealed => spec.sealed->0.start,
    }
}

/// Whether rules carry the bytes and the places of their keys.
spec fn are_placed(cfg: RawConfig, spec: RawRuleSpec, rules: Seq<(usize, RuleView)>) -> bool {
    forall|i: int|
        #![trigger rules[i]]
        0 <= i < rules.len() ==> rules[i].0 == key_start(spec, rules[i].1.kind) && rules[i].1.span
            == config::rule_place(cfg, rules[i].0)
}

/// The rules of a table stand in the order in which their keys are written, and each of them
/// carries the place of its key.
pub proof fn rules_stand_as_written(cfg: RawConfig, package: Seq<char>, spec: RawRuleSpec)
    requires
        flattened(cfg, package, spec) is Ok,
    ensures
        ({
            let rules = flattened(cfg, package, spec)->Ok_0;
            &&& forall|r: int, s: int|
                0 <= r <= s < rules.len() ==> key_start(spec, (#[trigger] rules[r]).kind)
                    <= key_start(spec, (#[trigger] rules[s]).kind)
            &&& forall|r: int|
                0 <= r < rules.len() ==> (#[trigger] rules[r]).span == config::rule_place(
                    cfg,
                    key_start(spec, rules[r].kind),
                )
        }),
{
    let rules = flattened(cfg, package, spec)->Ok_0;
    let features = table_features(cfg, package, spec.features)->Ok_0;
    let table = TableView { cfg, package, features };
    let deny = config::deny_rule(cfg, spec)->Ok_0;
    let require = config::require_rule(cfg, spec)->Ok_0;
    let items = made(table, spec, deny, require);
    let sorted = by_offset(items);
    assert(are_placed(cfg, spec, items));
    order::sorting_is_sorting(items);
    sorted.to_multiset_ensures();
    items.to_multiset_ensures();
    assert forall|i: int| #![trigger sorted[i]] 0 <= i < sorted.len() implies sorted[i].0
        == key_start(spec, sorted[i].1.kind) && sorted[i].1.span == config::rule_place(
        cfg,
        sorted[i].0,
    ) by {
        assert(sorted.contains(sorted[i]));
        assert(sorted.to_multiset().count(sorted[i]) > 0);
        assert(items.contains(sorted[i]));
        let j = choose|j: int| 0 <= j < items.len() && items[j] == sorted[i];
        assert(items[j] == sorted[i]);
    }
    assert forall|r: int, s: int| 0 <= r <= s < rules.len() implies key_start(
        spec,
        (#[trigger] rules[r]).kind,
    ) <= key_start(spec, (#[trigger] rules[s]).kind) by {
        assert(sorted[r].0 <= sorted[s].0);
    }
    assert forall|r: int| 0 <= r < rules.len() implies (#[trigger] rules[r]).span
        == config::rule_place(cfg, key_start(spec, rules[r].kind)) by {
        assert(sorted[r].1 == rules[r]);
    }
}

/// The sum of the rules that the first `upto` tables make.
pub open spec fn keys_below(tables: Seq<RawRule>, upto: int) -> int
    decreases upto,
{
    if upto <= 0 {
        0
    } else {
        keys_below(tables, upto - 1) + keys_of(tables[upto - 1].table.value)
    }
}

proof fn tables_stand_in_order(cfg: RawConfig, t: int, upto: int)
    requires
        0 <= t < upto <= cfg.rules@.len(),
        rules_below(cfg, upto) is Ok,
    ensures
        ({
            let table = cfg.rules@[t];
            let said = flattened(cfg, table.package@, table.table.value);
            let from = keys_below(cfg.rules@, t);
            let rules = rules_below(cfg, upto)->Ok_0;
            &&& said is Ok
            &&& 0 <= from
            &&& from + said->Ok_0.len() == keys_below(cfg.rules@, t + 1)
            &&& from + said->Ok_0.len() <= rules.len()
            &&& rules.subrange(from, from + said->Ok_0.len()) == said->Ok_0
        }),
        rules_below(cfg, upto)->Ok_0.len() == keys_below(cfg.rules@, upto),
    decreases upto,
{
    let last = cfg.rules@[upto - 1];
    let more = flattened(cfg, last.package@, last.table.value)->Ok_0;
    let before = rules_below(cfg, upto - 1)->Ok_0;
    let rules = rules_below(cfg, upto)->Ok_0;
    a_table_says_its_keys(cfg, last.package@, last.table.value);
    if upto - 1 > 0 {
        tables_stand_in_order(cfg, if t < upto - 1 {
            t
        } else {
            0
        }, upto - 1);
    }
    assert(before.len() == keys_below(cfg.rules@, upto - 1));
    if t < upto - 1 {
        let table = cfg.rules@[t];
        let said = flattened(cfg, table.package@, table.table.value)->Ok_0;
        let from = keys_below(cfg.rules@, t);
        assert(rules.subrange(from, from + said.len()) =~= before.subrange(from, from + said.len()));
    } else {
        let from = keys_below(cfg.rules@, t);
        assert(rules.subrange(from, from + more.len()) =~= more);
    }
}

/// A policy that is accepted says what is written: the internal definition with every pattern in
/// its place, and the rules of its tables, table after table, each of them with one rule for each
/// key that is set.
pub proof fn a_policy_says_what_is_written(cfg: RawConfig, host: Seq<char>)
    requires
        without_graph(cfg, host) is Ok,
    ensures
        ({
            let config = without_graph(cfg, host)->Ok_0;
            let patterns = cfg.internal.patterns.value@;
            &&& config.schema == cfg.schema.value
            &&& config.members == cfg.internal.members.value
            &&& config.patterns.len() == patterns.len()
            &&& forall|i: int|
                0 <= i < patterns.len() ==> #[trigger] config.patterns[i] == patterns[i]@
            &&& config.versions_in_root == cfg.manifest.versions_in_root.value
            &&& config.rules.len() == keys_below(cfg.rules@, cfg.rules@.len() as int)
            &&& forall|t: int|
                #![trigger cfg.rules@[t]]
                0 <= t < cfg.rules@.len() ==> {
                    let spec = cfg.rules@[t].table.value;
                    let package = cfg.rules@[t].package@;
                    let from = keys_below(cfg.rules@, t);
                    &&& 0 <= from
                    &&& from + keys_of(spec) <= config.rules.len()
                    &&& are_said_by(
                        config.rules.subrange(from, from + keys_of(spec)),
                        package,
                        spec,
                    )
                    &&& forall|r: int|
                        from <= r < from + keys_of(spec) ==> is_said_by(
                            #[trigger] config.rules[r],
                            package,
                            spec,
                        )
                }
        }),
{
    let config = without_graph(cfg, host)->Ok_0;
    let patterns = cfg.internal.patterns.value@;
    let count = cfg.rules@.len() as int;
    assert forall|i: int| 0 <= i < patterns.len() implies #[trigger] config.patterns[i]
        == patterns[i]@ by {
        assert(config.patterns[i] == texts(patterns)[i]);
    }
    if count > 0 {
        tables_stand_in_order(cfg, 0, count);
    }
    assert forall|t: int| #![trigger cfg.rules@[t]] 0 <= t < count implies {
        let spec = cfg.rules@[t].table.value;
        let package = cfg.rules@[t].package@;
        let from = keys_below(cfg.rules@, t);
        &&& 0 <= from
        &&& from + keys_of(spec) <= config.rules.len()
        &&& are_said_by(config.rules.subrange(from, from + keys_of(spec)), package, spec)
        &&& forall|r: int|
            from <= r < from + keys_of(spec) ==> is_said_by(
                #[trigger] config.rules[r],
                package,
                spec,
            )
    } by {
        let spec = cfg.rules@[t].table.value;
        let package = cfg.rules@[t].package@;
        let from = keys_below(cfg.rules@, t);
        tables_stand_in_order(cfg, t, count);
        a_table_says_its_keys(cfg, package, spec);
        let said = flattened(cfg, package, spec)->Ok_0;
        assert forall|r: int| from <= r < from + keys_of(spec) implies is_said_by(
            #[trigger] config.rules[r],
            package,
            spec,
        ) by {
            assert(config.rules[r] == config.rules.subrange(from, from + said.len())[r - from]);
            assert(is_said_by(said[r - from], package, spec));
        }
    }
}

} // verus!
