//! What is read of a policy file.

use crate::config::{FeatureValue, RawConfig};
use crate::decode::{
    default_graph, default_internal, default_manifest, default_policy, default_rule, first_odd,
    folded, graph_step, internal_step, manifest_step, policy_step, read_list, read_policy,
    read_words, rule_step, rules_step, At, GraphTable, InternalTable, ManifestTable, PolicyView,
    RuleTable, Words,
};
use crate::document::{TomlEntry, TomlPlaced, TomlView};
use vstd::prelude::*;

verus! {

/// Whether no key of a table occurs twice.
pub open spec fn keys_once(entries: Seq<TomlEntry>) -> bool {
    forall|i: int, j: int|
        0 <= i < j < entries.len() ==> (#[trigger] entries[i]).key != (#[trigger] entries[j]).key
}

/// Whether `list` is the array of strings that is written, string by string.
pub open spec fn is_list(value: TomlPlaced, list: Seq<Seq<char>>) -> bool {
    value.value matches TomlView::Array(elements) && {
        &&& list.len() == elements.len()
        &&& forall|i: int|
            0 <= i < elements.len() ==> (#[trigger] elements[i]).value == TomlView::Text(list[i])
    }
}

/// Whether `words` are the string or the array of strings that is written.
pub open spec fn are_words(value: TomlPlaced, words: Words) -> bool {
    match words {
        Words::Named(word) => value.value == TomlView::Text(word),
        Words::List(list) => is_list(value, list),
    }
}

/// Whether what was read for `key` is what is written there among the first `upto` entries, as
/// `is` tells, and nothing where the key is not written.
pub open spec fn is_read<T>(
    entries: Seq<TomlEntry>,
    upto: int,
    key: Seq<char>,
    read: Option<At<T>>,
    is: spec_fn(TomlPlaced, T) -> bool,
) -> bool {
    &&& forall|i: int|
        0 <= i < upto && (#[trigger] entries[i]).key == key ==> read is Some && is(
            entries[i].value,
            read->0.value,
        ) && read->0.start == entries[i].value.start && read->0.end == entries[i].value.end
    &&& (forall|i: int| 0 <= i < upto ==> (#[trigger] entries[i]).key != key) ==> read is None
}

/// Whether what was read for `key` is what is written there, and `otherwise` where it is not.
pub open spec fn is_read_or<T>(
    entries: Seq<TomlEntry>,
    upto: int,
    key: Seq<char>,
    read: At<T>,
    is: spec_fn(TomlPlaced, T) -> bool,
    otherwise: T,
) -> bool {
    &&& forall|i: int|
        0 <= i < upto && (#[trigger] entries[i]).key == key ==> is(entries[i].value, read.value)
            && read.start == entries[i].value.start && read.end == entries[i].value.end
    &&& (forall|i: int| 0 <= i < upto ==> (#[trigger] entries[i]).key != key) ==> read.value
        == otherwise
}

/// Being the list that a value is written as.
pub open spec fn as_list() -> spec_fn(TomlPlaced, Seq<Seq<char>>) -> bool {
    |value: TomlPlaced, list: Seq<Seq<char>>| is_list(value, list)
}

/// Being the words that a value is written as.
pub open spec fn as_words() -> spec_fn(TomlPlaced, Words) -> bool {
    |value: TomlPlaced, words: Words| are_words(value, words)
}

/// Being the flag that a value is written as.
pub open spec fn as_flag() -> spec_fn(TomlPlaced, bool) -> bool {
    |value: TomlPlaced, flag: bool| value.value == TomlView::Boolean(flag)
}

proof fn nothing_is_odd(elements: Seq<TomlPlaced>, upto: int)
    requires
        first_odd(elements, upto) is None,
    ensures
        forall|i: int| 0 <= i < upto ==> (#[trigger] elements[i]).value is Text,
    decreases upto,
{
    if upto > 0 {
        nothing_is_odd(elements, upto - 1);
    }
}

proof fn lists_are_read(source: Seq<char>, value: TomlPlaced)
    ensures
        read_list(source, value) matches Ok(list) ==> is_list(value, list.value) && list.start
            == value.start && list.end == value.end,
{
    if let TomlView::Array(elements) = value.value {
        if first_odd(elements, elements.len() as int) is None {
            nothing_is_odd(elements, elements.len() as int);
        }
    }
}

proof fn words_are_read(value: TomlPlaced, choice: Seq<char>)
    ensures
        read_words(value, choice) matches Ok(words) ==> are_words(value, words.value)
            && words.start == value.start && words.end == value.end,
{
    if let TomlView::Array(elements) = value.value {
        if first_odd(elements, elements.len() as int) is None {
            nothing_is_odd(elements, elements.len() as int);
        }
    }
}

/// Whether a rule table was read as it is written: each of its keys, and nothing for a key that
/// is not there.
pub open spec fn is_rule_table(entries: Seq<TomlEntry>, upto: int, table: RuleTable) -> bool {
    &&& is_read(entries, upto, "features"@, table.features, as_words())
    &&& is_read(entries, upto, "deny"@, table.deny, as_list())
    &&& is_read(entries, upto, "require"@, table.require, as_list())
    &&& is_read(entries, upto, "internal"@, table.internal, as_list())
    &&& is_read(entries, upto, "leaf"@, table.leaf, as_flag())
    &&& is_read(entries, upto, "direct"@, table.direct, as_list())
    &&& is_read(entries, upto, "sealed"@, table.sealed, as_flag())
}

proof fn keys_differ()
    ensures
        "features"@ != "deny"@,
        "features"@ != "require"@,
        "features"@ != "internal"@,
        "features"@ != "leaf"@,
        "features"@ != "direct"@,
        "features"@ != "sealed"@,
        "deny"@ != "require"@,
        "deny"@ != "internal"@,
        "deny"@ != "leaf"@,
        "deny"@ != "direct"@,
        "deny"@ != "sealed"@,
        "require"@ != "internal"@,
        "require"@ != "leaf"@,
        "require"@ != "direct"@,
        "require"@ != "sealed"@,
        "internal"@ != "leaf"@,
        "internal"@ != "direct"@,
        "internal"@ != "sealed"@,
        "leaf"@ != "direct"@,
        "leaf"@ != "sealed"@,
        "direct"@ != "sealed"@,
        "features"@ != "platform"@,
        "members"@ != "patterns"@,
        "schema"@ != "graph"@,
        "schema"@ != "internal"@,
        "schema"@ != "manifest"@,
        "schema"@ != "rules"@,
        "graph"@ != "internal"@,
        "graph"@ != "manifest"@,
        "graph"@ != "rules"@,
        "internal"@ != "manifest"@,
        "internal"@ != "rules"@,
        "manifest"@ != "rules"@,
{
    reveal_strlit("features");
    reveal_strlit("deny");
    reveal_strlit("require");
    reveal_strlit("internal");
    reveal_strlit("leaf");
    reveal_strlit("direct");
    reveal_strlit("sealed");
    reveal_strlit("platform");
    reveal_strlit("members");
    reveal_strlit("patterns");
    reveal_strlit("schema");
    reveal_strlit("graph");
    reveal_strlit("manifest");
    reveal_strlit("rules");
    assert("features"@[0] == 'f' && "deny"@[0] == 'd' && "require"@[0] == 'r' && "internal"@[0]
        == 'i' && "leaf"@[0] == 'l' && "direct"@[0] == 'd' && "sealed"@[0] == 's');
    assert("deny"@[1] == 'e' && "direct"@[1] == 'i');
    assert("platform"@[0] == 'p' && "members"@[0] == 'm' && "patterns"@[0] == 'p' && "schema"@[0]
        == 's' && "graph"@[0] == 'g' && "manifest"@[0] == 'm' && "rules"@[0] == 'r');
}

proof fn rule_tables_are_read(source: Seq<char>, entries: Seq<TomlEntry>, upto: int)
    requires
        0 <= upto <= entries.len(),
        keys_once(entries),
    ensures
        folded(default_rule(), rule_step(source), entries, upto) matches Ok(table)
            ==> is_rule_table(entries, upto, table),
    decreases upto,
{
    if upto > 0 {
        rule_tables_are_read(source, entries, upto - 1);
        let last = entries[upto - 1];
        lists_are_read(source, last.value);
        words_are_read(last.value, "FeatureValue"@);
        keys_differ();
        if let Ok(before) = folded(default_rule(), rule_step(source), entries, upto - 1) {
            if let Ok(now) = folded(default_rule(), rule_step(source), entries, upto) {
                assert(forall|i: int| 0 <= i < upto - 1 ==> (#[trigger] entries[i]).key != last.key);
                one_more_key(entries, upto, "features"@, before.features, now.features, as_words());
                one_more_key(entries, upto, "deny"@, before.deny, now.deny, as_list());
                one_more_key(entries, upto, "require"@, before.require, now.require, as_list());
                one_more_key(entries, upto, "internal"@, before.internal, now.internal, as_list());
                one_more_key(entries, upto, "leaf"@, before.leaf, now.leaf, as_flag());
                one_more_key(entries, upto, "direct"@, before.direct, now.direct, as_list());
                one_more_key(entries, upto, "sealed"@, before.sealed, now.sealed, as_flag());
            }
        }
    }
}

/// What was read stays read when one more key is.
proof fn one_more_key<T>(
    entries: Seq<TomlEntry>,
    upto: int,
    key: Seq<char>,
    before: Option<At<T>>,
    now: Option<At<T>>,
    is: spec_fn(TomlPlaced, T) -> bool,
)
    requires
        0 < upto <= entries.len(),
        is_read(entries, upto - 1, key, before, is),
        forall|i: int|
            0 <= i < upto - 1 ==> (#[trigger] entries[i]).key != entries[upto - 1].key,
        entries[upto - 1].key != key ==> now == before,
        entries[upto - 1].key == key ==> now is Some && is(entries[upto - 1].value, now->0.value)
            && now->0.start == entries[upto - 1].value.start && now->0.end
            == entries[upto - 1].value.end,
    ensures
        is_read(entries, upto, key, now, is),
{
    if forall|i: int| 0 <= i < upto ==> (#[trigger] entries[i]).key != key {
        assert(entries[upto - 1].key != key);
    }
}

proof fn one_more_setting<T>(
    entries: Seq<TomlEntry>,
    upto: int,
    key: Seq<char>,
    before: At<T>,
    now: At<T>,
    is: spec_fn(TomlPlaced, T) -> bool,
    otherwise: T,
)
    requires
        0 < upto <= entries.len(),
        is_read_or(entries, upto - 1, key, before, is, otherwise),
        forall|i: int|
            0 <= i < upto - 1 ==> (#[trigger] entries[i]).key != entries[upto - 1].key,
        entries[upto - 1].key != key ==> now == before,
        entries[upto - 1].key == key ==> is(entries[upto - 1].value, now.value) && now.start
            == entries[upto - 1].value.start && now.end == entries[upto - 1].value.end,
    ensures
        is_read_or(entries, upto, key, now, is, otherwise),
{
    if forall|i: int| 0 <= i < upto ==> (#[trigger] entries[i]).key != key {
        assert(entries[upto - 1].key != key);
    }
}

/// Whether the `[internal]` table was read as it is written: members count and there are no
/// patterns, unless it says otherwise.
pub open spec fn is_internal_table(entries: Seq<TomlEntry>, upto: int, table: InternalTable) -> bool {
    &&& is_read_or(entries, upto, "members"@, table.members, as_flag(), true)
    &&& is_read_or(entries, upto, "patterns"@, table.patterns, as_list(), Seq::empty())
}

proof fn internal_tables_are_read(source: Seq<char>, entries: Seq<TomlEntry>, upto: int)
    requires
        0 <= upto <= entries.len(),
        keys_once(entries),
    ensures
        folded(default_internal(), internal_step(source), entries, upto) matches Ok(table)
            ==> is_internal_table(entries, upto, table),
    decreases upto,
{
    if upto > 0 {
        internal_tables_are_read(source, entries, upto - 1);
        let last = entries[upto - 1];
        lists_are_read(source, last.value);
        keys_differ();
        if let Ok(before) = folded(default_internal(), internal_step(source), entries, upto - 1) {
            if let Ok(now) = folded(default_internal(), internal_step(source), entries, upto) {
                assert(forall|i: int| 0 <= i < upto - 1 ==> (#[trigger] entries[i]).key != last.key);
                one_more_setting(
                    entries,
                    upto,
                    "members"@,
                    before.members,
                    now.members,
                    as_flag(),
                    true,
                );
                one_more_setting(
                    entries,
                    upto,
                    "patterns"@,
                    before.patterns,
                    now.patterns,
                    as_list(),
                    Seq::empty(),
                );
            }
        }
    }
}

/// Whether the `[graph]` table was read as it is written: the default features and every platform,
/// unless it says otherwise.
pub open spec fn is_graph_table(entries: Seq<TomlEntry>, upto: int, table: GraphTable) -> bool {
    &&& is_read_or(
        entries,
        upto,
        "features"@,
        table.features,
        as_words(),
        Words::Named("default"@),
    )
    &&& is_read_or(entries, upto, "platform"@, table.platform, as_words(), Words::Named("all"@))
}

proof fn graph_tables_are_read(source: Seq<char>, entries: Seq<TomlEntry>, upto: int)
    requires
        0 <= upto <= entries.len(),
        keys_once(entries),
    ensures
        folded(default_graph(), graph_step(source), entries, upto) matches Ok(table)
            ==> is_graph_table(entries, upto, table),
    decreases upto,
{
    if upto > 0 {
        graph_tables_are_read(source, entries, upto - 1);
        let last = entries[upto - 1];
        words_are_read(last.value, "FeatureValue"@);
        words_are_read(last.value, "PlatformValue"@);
        keys_differ();
        if let Ok(before) = folded(default_graph(), graph_step(source), entries, upto - 1) {
            if let Ok(now) = folded(default_graph(), graph_step(source), entries, upto) {
                assert(forall|i: int| 0 <= i < upto - 1 ==> (#[trigger] entries[i]).key != last.key);
                one_more_setting(
                    entries,
                    upto,
                    "features"@,
                    before.features,
                    now.features,
                    as_words(),
                    Words::Named("default"@),
                );
                one_more_setting(
                    entries,
                    upto,
                    "platform"@,
                    before.platform,
                    now.platform,
                    as_words(),
                    Words::Named("all"@),
                );
            }
        }
    }
}

/// Whether the `[manifest]` table was read as it is written: the rule is on, unless it says
/// otherwise.
pub open spec fn is_manifest_table(entries: Seq<TomlEntry>, upto: int, table: ManifestTable) -> bool {
    is_read_or(entries, upto, "versions-in-root"@, table.versions_in_root, as_flag(), true)
}

proof fn manifest_tables_are_read(source: Seq<char>, entries: Seq<TomlEntry>, upto: int)
    requires
        0 <= upto <= entries.len(),
        keys_once(entries),
    ensures
        folded(default_manifest(), manifest_step(source), entries, upto) matches Ok(table)
            ==> is_manifest_table(entries, upto, table),
    decreases upto,
{
    if upto > 0 {
        manifest_tables_are_read(source, entries, upto - 1);
        let last = entries[upto - 1];
        if let Ok(before) = folded(default_manifest(), manifest_step(source), entries, upto - 1) {
            if let Ok(now) = folded(default_manifest(), manifest_step(source), entries, upto) {
                assert(forall|i: int| 0 <= i < upto - 1 ==> (#[trigger] entries[i]).key != last.key);
                one_more_setting(
                    entries,
                    upto,
                    "versions-in-root"@,
                    before.versions_in_root,
                    now.versions_in_root,
                    as_flag(),
                    true,
                );
            }
        }
    }
}

/// Whether the rules were read as they are written: one table for each package, in the order of
/// the file.
pub open spec fn are_rules(tables: Seq<TomlEntry>, upto: int, rules: Seq<(Seq<char>, At<RuleTable>)>) -> bool {
    &&& rules.len() == upto
    &&& forall|t: int|
        #![trigger tables[t]]
        0 <= t < upto ==> {
            &&& rules[t].0 == tables[t].key
            &&& rules[t].1.start == tables[t].value.start
            &&& rules[t].1.end == tables[t].value.end
            &&& tables[t].value.value matches TomlView::Table(entries) ==> keys_once(entries)
                ==> is_rule_table(entries, entries.len() as int, rules[t].1.value)
        }
}

proof fn rules_are_read(source: Seq<char>, tables: Seq<TomlEntry>, upto: int)
    requires
        0 <= upto <= tables.len(),
    ensures
        folded(Seq::empty(), rules_step(source), tables, upto) matches Ok(rules) ==> are_rules(
            tables,
            upto,
            rules,
        ),
    decreases upto,
{
    if upto > 0 {
        rules_are_read(source, tables, upto - 1);
        let last = tables[upto - 1];
        if let Ok(before) = folded(Seq::empty(), rules_step(source), tables, upto - 1) {
            if let Ok(now) = folded(Seq::empty(), rules_step(source), tables, upto) {
                assert forall|t: int| #![trigger tables[t]] 0 <= t < upto implies {
                    &&& now[t].0 == tables[t].key
                    &&& now[t].1.start == tables[t].value.start
                    &&& now[t].1.end == tables[t].value.end
                    &&& tables[t].value.value matches TomlView::Table(entries) ==> keys_once(
                        entries,
                    ) ==> is_rule_table(entries, entries.len() as int, now[t].1.value)
                } by {
                    if t < upto - 1 {
                        assert(now[t] == before[t]);
                    } else if let TomlView::Table(entries) = last.value.value {
                        if keys_once(entries) {
                            rule_tables_are_read(source, entries, entries.len() as int);
                        }
                    }
                }
            }
        }
    }
}

/// Whether a policy was read as its root table says: its schema, its three tables and its rules,
/// each where it is written and with what stands for it where it is not.
pub open spec fn is_policy(entries: Seq<TomlEntry>, upto: int, policy: PolicyView) -> bool {
    &&& forall|i: int|
        #![trigger entries[i]]
        0 <= i < upto ==> {
            let value = entries[i].value.value;
            &&& entries[i].key == "schema"@ ==> policy.schema is Some && value == TomlView::Integer(
                Some(policy.schema->0.value as i64),
            )
            &&& entries[i].key == "graph"@ ==> (value matches TomlView::Table(inner) ==> keys_once(
                inner,
            ) ==> is_graph_table(inner, inner.len() as int, policy.graph))
            &&& entries[i].key == "internal"@ ==> (value matches TomlView::Table(inner)
                ==> keys_once(inner) ==> is_internal_table(
                inner,
                inner.len() as int,
                policy.internal,
            ))
            &&& entries[i].key == "manifest"@ ==> (value matches TomlView::Table(inner)
                ==> keys_once(inner) ==> is_manifest_table(
                inner,
                inner.len() as int,
                policy.manifest,
            ))
            &&& entries[i].key == "rules"@ ==> value is Table && are_rules(
                value->Table_0,
                value->Table_0.len() as int,
                policy.rules,
            )
        }
    &&& (forall|i: int| 0 <= i < upto ==> (#[trigger] entries[i]).key != "graph"@)
        ==> is_graph_table(Seq::empty(), 0, policy.graph)
    &&& (forall|i: int| 0 <= i < upto ==> (#[trigger] entries[i]).key != "internal"@)
        ==> is_internal_table(Seq::empty(), 0, policy.internal)
    &&& (forall|i: int| 0 <= i < upto ==> (#[trigger] entries[i]).key != "manifest"@)
        ==> is_manifest_table(Seq::empty(), 0, policy.manifest)
    &&& (forall|i: int| 0 <= i < upto ==> (#[trigger] entries[i]).key != "rules"@)
        ==> policy.rules.len() == 0
}

proof fn policies_are_read(source: Seq<char>, entries: Seq<TomlEntry>, upto: int)
    requires
        0 <= upto <= entries.len(),
        keys_once(entries),
    ensures
        folded(default_policy(), policy_step(source), entries, upto) matches Ok(policy)
            ==> is_policy(entries, upto, policy),
    decreases upto,
{
    if upto > 0 {
        policies_are_read(source, entries, upto - 1);
        let last = entries[upto - 1];
        keys_differ();
        if let TomlView::Table(inner) = last.value.value {
            rules_are_read(source, inner, inner.len() as int);
            if keys_once(inner) {
                graph_tables_are_read(source, inner, inner.len() as int);
                internal_tables_are_read(source, inner, inner.len() as int);
                manifest_tables_are_read(source, inner, inner.len() as int);
            }
        }
        if let Ok(before) = folded(default_policy(), policy_step(source), entries, upto - 1) {
            if let Ok(now) = folded(default_policy(), policy_step(source), entries, upto) {
                assert(forall|i: int| 0 <= i < upto - 1 ==> (#[trigger] entries[i]).key != last.key);
                assert(last.key != "schema"@ ==> now.schema == before.schema);
                assert(last.key != "graph"@ ==> now.graph == before.graph);
                assert(last.key != "internal"@ ==> now.internal == before.internal);
                assert(last.key != "manifest"@ ==> now.manifest == before.manifest);
                assert(last.key != "rules"@ ==> now.rules == before.rules);
                assert(entries[upto - 1] == last);
            }
        }
    }
}

/// A policy file that is accepted is read as it is written: every list string by string and in
/// order, every flag and word, every rule table under its package, and the documented defaults
/// for what is not written.
pub proof fn a_policy_file_is_read_as_written(source: Seq<char>, entries: Seq<TomlEntry>)
    requires
        keys_once(entries),
        read_policy(source, entries) is Ok,
    ensures
        is_policy(entries, entries.len() as int, read_policy(source, entries)->Ok_0),
        read_policy(source, entries)->Ok_0.schema is Some,
{
    policies_are_read(source, entries, entries.len() as int);
}

/// A configuration holds what was read: the same words, strings and flags, table by table.
pub proof fn a_configuration_holds_what_was_read(cfg: RawConfig)
    ensures
        cfg@.schema matches Some(schema) && schema.value == cfg.schema.value,
        cfg@.internal.members.value == cfg.internal.members.value,
        cfg@.internal.patterns.value.len() == cfg.internal.patterns.value@.len(),
        forall|i: int|
            0 <= i < cfg.internal.patterns.value@.len() ==> (
            #[trigger] cfg.internal.patterns.value@[i])@ == cfg@.internal.patterns.value[i],
        cfg@.manifest.versions_in_root.value == cfg.manifest.versions_in_root.value,
        cfg@.rules.len() == cfg.rules@.len(),
        forall|t: int|
            #![trigger cfg.rules@[t]]
            0 <= t < cfg.rules@.len() ==> {
                let read = cfg@.rules[t].1.value;
                let held = cfg.rules@[t].table.value;
                &&& cfg@.rules[t].0 == cfg.rules@[t].package@
                &&& holds_list(held.deny, read.deny)
                &&& holds_list(held.require, read.require)
                &&& holds_list(held.internal, read.internal)
                &&& holds_list(held.direct, read.direct)
                &&& holds_flag(held.leaf, read.leaf)
                &&& holds_flag(held.sealed, read.sealed)
                &&& match (held.features, read.features) {
                    (Some(held), Some(read)) => match (held.value, read.value) {
                        (FeatureValue::Named(word), Words::Named(said)) => word@ == said,
                        (FeatureValue::List(list), Words::List(said)) => same_words(list, said),
                        _ => false,
                    },
                    (None, None) => true,
                    _ => false,
                }
            },
{
    let written = cfg.internal.patterns.value@;
    assert forall|i: int| 0 <= i < written.len() implies (#[trigger] written[i])@
        == cfg@.internal.patterns.value[i] by {
        assert(crate::text::texts(written)[i] == written[i]@);
    }
    assert forall|t: int| #![trigger cfg.rules@[t]] 0 <= t < cfg.rules@.len() implies {
        let read = cfg@.rules[t].1.value;
        let held = cfg.rules@[t].table.value;
        &&& cfg@.rules[t].0 == cfg.rules@[t].package@
        &&& holds_list(held.deny, read.deny)
        &&& holds_list(held.require, read.require)
        &&& holds_list(held.internal, read.internal)
        &&& holds_list(held.direct, read.direct)
        &&& holds_flag(held.leaf, read.leaf)
        &&& holds_flag(held.sealed, read.sealed)
        &&& match (held.features, read.features) {
            (Some(held), Some(read)) => match (held.value, read.value) {
                (FeatureValue::Named(word), Words::Named(said)) => word@ == said,
                (FeatureValue::List(list), Words::List(said)) => same_words(list, said),
                _ => false,
            },
            (None, None) => true,
            _ => false,
        }
    } by {
        assert(cfg@.rules[t].1.value == cfg.rules@[t].table.value@);
    }
}

/// Whether `said` are the strings of `list`, one by one.
pub open spec fn same_words(list: Vec<String>, said: Seq<Seq<char>>) -> bool {
    &&& said.len() == list@.len()
    &&& forall|i: int| 0 <= i < said.len() ==> #[trigger] said[i] == list@[i]@
}

/// Whether a list is held as it was read.
pub open spec fn holds_list(
    held: Option<crate::config::Located<Vec<String>>>,
    read: Option<At<Seq<Seq<char>>>>,
) -> bool {
    match (held, read) {
        (Some(held), Some(read)) => same_words(held.value, read.value),
        (None, None) => true,
        _ => false,
    }
}

/// Whether a flag is held as it was read.
pub open spec fn holds_flag(held: Option<crate::config::Located<bool>>, read: Option<At<bool>>) -> bool {
    match (held, read) {
        (Some(held), Some(read)) => held.value == read.value,
        (None, None) => true,
        _ => false,
    }
}

} // verus!
