//! Which policies are accepted.

use super::policy::{is_wild, is_written, keys_below, keys_of, wild_is_glob, words_differ};
use crate::config::{
    self, bad_glob, bad_pattern, bad_require, deny_kind, flattened, globs_among, graph_platform,
    own_name, require_kind, root_of, rule_fault, rules_below, rules_fault, unknown_feature,
    unknown_name, validated, without_graph, FeatureSelectionView, FeatureValue, Located, RawConfig,
    RawRule, RawRuleSpec, RuleKindView, RuleView,
};
use crate::features::{
    feature_table_of, fully_activated, lacking_member, resolved_features, SelectionView,
};
use crate::globs::{pattern_fault, set_fault};
use crate::graph::GraphView;
use crate::metadata::Decoded;
use crate::text::texts;
use vstd::prelude::*;

verus! {

/// The words of a list that are globs, in order.
pub open spec fn wild_words(list: Vec<String>) -> Seq<Seq<char>> {
    texts(list@).filter(|word: Seq<char>| is_wild(word))
}

proof fn globs_are_the_wild(list: Seq<Seq<char>>, upto: int)
    requires
        0 <= upto <= list.len(),
    ensures
        globs_among(list, upto) == list.take(upto).filter(|word: Seq<char>| is_wild(word)),
    decreases upto,
{
    reveal(Seq::filter);
    let wild = |word: Seq<char>| is_wild(word);
    if upto > 0 {
        globs_are_the_wild(list, upto - 1);
        wild_is_glob(list[upto - 1]);
        assert(list.take(upto).drop_last() =~= list.take(upto - 1));
        assert(list.take(upto).last() == list[upto - 1]);
    }
}

proof fn no_glob_is_bad(list: Seq<Seq<char>>, upto: int)
    requires
        0 <= upto <= list.len(),
    ensures
        bad_glob(list, upto) is None <==> forall|i: int|
            0 <= i < upto && is_wild(#[trigger] list[i]) ==> pattern_fault(list[i]) is None,
        bad_glob(list, upto) matches Some(i) ==> 0 <= i < upto,
    decreases upto,
{
    if upto > 0 {
        no_glob_is_bad(list, upto - 1);
        wild_is_glob(list[upto - 1]);
        if bad_glob(list, upto) is Some && bad_glob(list, upto - 1) is None {
            assert(is_wild(list[upto - 1]));
        }
    }
}

proof fn no_pattern_is_bad(list: Seq<Seq<char>>, upto: int)
    requires
        0 <= upto <= list.len(),
    ensures
        bad_pattern(list, upto) is None <==> forall|i: int|
            0 <= i < upto ==> pattern_fault(#[trigger] list[i]) is None,
    decreases upto,
{
    if upto > 0 {
        no_pattern_is_bad(list, upto - 1);
        if bad_pattern(list, upto) is Some && bad_pattern(list, upto - 1) is None {
            assert(pattern_fault(list[upto - 1]) is Some);
        }
    }
}

proof fn no_requirement_is_bad(list: Seq<Seq<char>>, upto: int)
    requires
        0 <= upto <= list.len(),
    ensures
        bad_require(list, upto) is None <==> forall|i: int|
            0 <= i < upto && is_wild(#[trigger] list[i]) ==> pattern_fault(list[i]) is None
                && set_fault(seq![list[i]]) is None,
    decreases upto,
{
    if upto > 0 {
        no_requirement_is_bad(list, upto - 1);
        wild_is_glob(list[upto - 1]);
        if bad_require(list, upto) is Some && bad_require(list, upto - 1) is None {
            assert(is_wild(list[upto - 1]));
        }
    }
}

proof fn own_names_are_found(list: Seq<Seq<char>>, package: Seq<char>, upto: int)
    requires
        0 <= upto <= list.len(),
    ensures
        own_name(list, package, upto) is None <==> forall|i: int|
            0 <= i < upto ==> #[trigger] list[i] != package,
    decreases upto,
{
    if upto > 0 {
        own_names_are_found(list, package, upto - 1);
        if own_name(list, package, upto) is Some && own_name(list, package, upto - 1) is None {
            assert(list[upto - 1] == package);
        }
    }
}

/// Whether every glob of a `deny` list can be parsed, and all of them compiled together.
pub open spec fn is_deniable(list: Vec<String>) -> bool {
    &&& forall|i: int|
        0 <= i < list@.len() && is_wild((#[trigger] list@[i])@) ==> pattern_fault(list@[i]@) is None
    &&& set_fault(wild_words(list)) is None
}

/// Whether every glob of a `require` list can be parsed and compiled.
pub open spec fn is_requirable(list: Vec<String>) -> bool {
    forall|i: int|
        0 <= i < list@.len() && is_wild((#[trigger] list@[i])@) ==> pattern_fault(list@[i]@) is None
            && set_fault(seq![list@[i]@]) is None
}

/// Whether a `features` key says one of the words it may, or is a list.
pub open spec fn is_selectable(written: Option<Located<FeatureValue>>) -> bool {
    match written {
        None => true,
        Some(written) => match written.value {
            FeatureValue::List(_) => true,
            FeatureValue::Named(word) => word@ == "unified"@ || word@ == "none"@ || word@
                == "default"@ || word@ == "all"@,
        },
    }
}

/// Whether a rule table is in order: not both a leaf and with a list of internal names, which does
/// not hold the package itself; a selection that can be told, and something that it narrows; and
/// globs that can be compiled.
pub open spec fn is_table_in_order(package: Seq<char>, spec: RawRuleSpec) -> bool {
    let is_leaf = spec.leaf is Some && spec.leaf->0.value;
    &&& !(is_leaf && spec.internal is Some)
    &&& is_selectable(spec.features)
    &&& spec.internal is Some ==> !is_written(spec.internal->0.value, package)
    &&& spec.deny is Some ==> is_deniable(spec.deny->0.value)
    &&& spec.require is Some ==> is_requirable(spec.require->0.value)
    &&& spec.features is Some ==> spec.internal is Some || spec.deny is Some || spec.require is Some
        || is_leaf
}

proof fn deny_lists_are_compiled(cfg: RawConfig, written: Located<Vec<String>>)
    ensures
        deny_kind(cfg, written) is Ok <==> is_deniable(written.value),
{
    let list = texts(written.value@);
    let count = list.len() as int;
    no_glob_is_bad(list, count);
    globs_are_the_wild(list, count);
    assert(list.take(count) =~= list);
    if is_deniable(written.value) {
        assert forall|i: int| 0 <= i < count && is_wild(#[trigger] list[i]) implies pattern_fault(
            list[i],
        ) is None by {
            assert(list[i] == written.value@[i]@);
        }
    }
    if deny_kind(cfg, written) is Ok {
        assert forall|i: int|
            0 <= i < written.value@.len() && is_wild((#[trigger] written.value@[i])@) implies
            pattern_fault(written.value@[i]@) is None by {
            assert(list[i] == written.value@[i]@);
        }
    }
}

proof fn require_lists_are_compiled(cfg: RawConfig, written: Located<Vec<String>>)
    ensures
        require_kind(cfg, written) is Ok <==> is_requirable(written.value),
{
    let list = texts(written.value@);
    let count = list.len() as int;
    no_requirement_is_bad(list, count);
    if is_requirable(written.value) {
        assert forall|i: int| 0 <= i < count && is_wild(#[trigger] list[i]) implies pattern_fault(
            list[i],
        ) is None && set_fault(seq![list[i]]) is None by {
            assert(list[i] == written.value@[i]@);
        }
    }
    if require_kind(cfg, written) is Ok {
        assert forall|i: int|
            0 <= i < written.value@.len() && is_wild((#[trigger] written.value@[i])@) implies
            pattern_fault(written.value@[i]@) is None && set_fault(
            seq![written.value@[i]@],
        ) is None by {
            assert(list[i] == written.value@[i]@);
        }
    }
}

/// A rule table is accepted exactly when it is in order.
pub proof fn tables_in_order_are_accepted(cfg: RawConfig, package: Seq<char>, spec: RawRuleSpec)
    ensures
        flattened(cfg, package, spec) is Ok <==> is_table_in_order(package, spec),
{
    if let Some(written) = spec.deny {
        deny_lists_are_compiled(cfg, written);
    }
    if let Some(written) = spec.require {
        require_lists_are_compiled(cfg, written);
    }
    if let Some(written) = spec.internal {
        let list = texts(written.value@);
        own_names_are_found(list, package, list.len() as int);
        super::policy::written_is_listed(written.value, package);
        if list.contains(package) {
            let i = choose|i: int| 0 <= i < list.len() && list[i] == package;
            assert(list[i] == package);
        }
        if exists|i: int| 0 <= i < list.len() && #[trigger] list[i] == package {
            let i = choose|i: int| 0 <= i < list.len() && #[trigger] list[i] == package;
            assert(list.contains(package));
        }
    }
}

proof fn all_tables_are_accepted(cfg: RawConfig, upto: int)
    requires
        0 <= upto <= cfg.rules@.len(),
    ensures
        rules_below(cfg, upto) is Ok <==> forall|t: int|
            0 <= t < upto ==> is_table_in_order(
                (#[trigger] cfg.rules@[t]).package@,
                cfg.rules@[t].table.value,
            ),
    decreases upto,
{
    if upto > 0 {
        all_tables_are_accepted(cfg, upto - 1);
        let last = cfg.rules@[upto - 1];
        tables_in_order_are_accepted(cfg, last.package@, last.table.value);
        if rules_below(cfg, upto) is Err && rules_below(cfg, upto - 1) is Ok {
            assert(!is_table_in_order(
                cfg.rules@[upto - 1].package@,
                cfg.rules@[upto - 1].table.value,
            ));
        }
    }
}

proof fn keys_are_counted(tables: Seq<RawRule>, upto: int)
    requires
        0 <= upto <= tables.len(),
    ensures
        keys_below(tables, upto) >= 0,
        keys_below(tables, upto) > 0 <==> exists|t: int|
            0 <= t < upto && keys_of((#[trigger] tables[t]).table.value) > 0,
    decreases upto,
{
    if upto > 0 {
        keys_are_counted(tables, upto - 1);
        assert(keys_of(tables[upto - 1].table.value) >= 0);
    }
}

/// A policy is accepted in itself exactly when its schema is the one there is, its words and globs
/// can be read, every table is in order, and it checks anything at all.
pub proof fn policies_in_order_are_accepted(cfg: RawConfig, host: Seq<char>)
    ensures
        without_graph(cfg, host) is Ok <==> {
            let patterns = cfg.internal.patterns.value;
            &&& cfg.schema.value == 1
            &&& cfg.graph.features.value matches FeatureValue::Named(word) ==> word@ == "default"@
                || word@ == "all"@
            &&& graph_platform(cfg, host) is Ok
            &&& forall|i: int|
                0 <= i < patterns@.len() ==> pattern_fault((#[trigger] patterns@[i])@) is None
            &&& set_fault(texts(patterns@)) is None
            &&& forall|t: int|
                0 <= t < cfg.rules@.len() ==> is_table_in_order(
                    (#[trigger] cfg.rules@[t]).package@,
                    cfg.rules@[t].table.value,
                )
            &&& cfg.manifest.versions_in_root.value || exists|t: int|
                0 <= t < cfg.rules@.len() && keys_of((#[trigger] cfg.rules@[t]).table.value) > 0
        },
{
    let list = texts(cfg.internal.patterns.value@);
    let count = cfg.rules@.len() as int;
    no_pattern_is_bad(list, list.len() as int);
    all_tables_are_accepted(cfg, count);
    keys_are_counted(cfg.rules@, count);
    assert((forall|i: int| 0 <= i < list.len() ==> pattern_fault(#[trigger] list[i]) is None) <==> (
    forall|i: int|
        0 <= i < cfg.internal.patterns.value@.len() ==> pattern_fault(
            (#[trigger] cfg.internal.patterns.value@[i])@,
        ) is None)) by {
        if forall|i: int| 0 <= i < list.len() ==> pattern_fault(#[trigger] list[i]) is None {
            assert forall|i: int| 0 <= i < cfg.internal.patterns.value@.len() implies pattern_fault(
                (#[trigger] cfg.internal.patterns.value@[i])@,
            ) is None by {
                assert(list[i] == cfg.internal.patterns.value@[i]@);
            }
        } else {
            let i = choose|i: int|
                0 <= i < list.len() && !(pattern_fault(#[trigger] list[i]) is None);
            assert(list[i] == cfg.internal.patterns.value@[i]@);
        }
    }
    if rules_below(cfg, count) is Ok {
        rules_are_counted(cfg, count);
    }
}

proof fn rules_are_counted(cfg: RawConfig, upto: int)
    requires
        0 <= upto <= cfg.rules@.len(),
        rules_below(cfg, upto) is Ok,
    ensures
        rules_below(cfg, upto)->Ok_0.len() == keys_below(cfg.rules@, upto),
    decreases upto,
{
    if upto > 0 {
        rules_are_counted(cfg, upto - 1);
        let last = cfg.rules@[upto - 1];
        super::policy::a_table_says_its_keys(cfg, last.package@, last.table.value);
    }
}

/// The `[graph].features` key selects what is written there.
pub proof fn graph_features_are_as_written(cfg: RawConfig, host: Seq<char>)
    requires
        without_graph(cfg, host) is Ok,
    ensures
        match cfg.graph.features.value {
            FeatureValue::Named(word) => {
                &&& without_graph(cfg, host)->Ok_0.features is Default <==> word@ == "default"@
                &&& without_graph(cfg, host)->Ok_0.features is All <==> word@ == "all"@
                &&& !(without_graph(cfg, host)->Ok_0.features is List)
            },
            FeatureValue::List(list) => without_graph(cfg, host)->Ok_0.features
                matches FeatureSelectionView::List(asked) && asked.len() == list@.len() && forall|
                i: int,
            |
                0 <= i < asked.len() ==> #[trigger] asked[i] == list@[i]@,
        },
{
    words_differ();
    if let FeatureValue::List(list) = cfg.graph.features.value {
        let asked = without_graph(cfg, host)->Ok_0.features->List_0;
        assert forall|i: int| 0 <= i < asked.len() implies #[trigger] asked[i] == list@[i]@ by {
            assert(asked[i] == texts(list@)[i]);
        }
    }
}

proof fn every_name_is_known(view: GraphView, names: Seq<Seq<char>>, upto: int)
    requires
        0 <= upto <= names.len(),
    ensures
        unknown_name(view, names, upto) is None <==> forall|i: int|
            0 <= i < upto ==> view.names.contains(#[trigger] names[i]),
    decreases upto,
{
    if upto > 0 {
        every_name_is_known(view, names, upto - 1);
        if unknown_name(view, names, upto) is Some && unknown_name(view, names, upto - 1) is None {
            assert(!view.names.contains(names[upto - 1]));
        }
    }
}

proof fn every_feature_is_known(view: GraphView, node: int, features: Seq<Seq<char>>, upto: int)
    requires
        0 <= upto <= features.len(),
    ensures
        unknown_feature(view, node, features, upto) is None <==> forall|i: int|
            0 <= i < upto ==> has_feature(view, node, #[trigger] features[i]),
    decreases upto,
{
    if upto > 0 {
        every_feature_is_known(view, node, features, upto - 1);
        if unknown_feature(view, node, features, upto) is Some && unknown_feature(
            view,
            node,
            features,
            upto - 1,
        ) is None {
            assert(!has_feature(view, node, features[upto - 1]));
        }
    }
}

/// Whether the `[features]` table of a package has a feature of that name.
pub open spec fn has_feature(view: GraphView, node: int, feature: Seq<char>) -> bool {
    view.meta.packages@[node].features matches Decoded::Value(table) && exists|i: int|
        0 <= i < table@.len() && (#[trigger] table@[i]).name@ == feature
}

/// Whether a rule fits the graph: its package is a member, the names that it lists exactly are
/// those of packages, and the features that it lists are the package's own.
pub open spec fn fits_the_graph(view: GraphView, rule: RuleView) -> bool {
    root_of(view, rule.package) matches Some(root) && {
        &&& rule.kind matches RuleKindView::Internal(listed) ==> forall|i: int|
            0 <= i < listed.len() ==> view.names.contains(#[trigger] listed[i])
        &&& rule.kind matches RuleKindView::Direct(listed) ==> forall|i: int|
            0 <= i < listed.len() ==> view.names.contains(#[trigger] listed[i])
        &&& rule.features matches Some((SelectionView::List(asked), _)) ==> {
            &&& view.meta.packages@[root].features is Value
            &&& forall|i: int| 0 <= i < asked.len() ==> has_feature(view, root, #[trigger] asked[i])
        }
        &&& rule.kind is Direct ==> view.meta.packages@[root].dependencies is Value
    }
}

proof fn fitting_rules_have_no_fault(view: GraphView, rule: RuleView)
    ensures
        rule_fault(view, rule) is None <==> fits_the_graph(view, rule),
{
    let names = config::exact_names(rule.kind);
    every_name_is_known(view, names, names.len() as int);
    if let Some(root) = root_of(view, rule.package) {
        if let Some((SelectionView::List(asked), _)) = rule.features {
            every_feature_is_known(view, root, asked, asked.len() as int);
        }
    }
}

proof fn all_rules_fit(view: GraphView, rules: Seq<RuleView>, upto: int)
    requires
        0 <= upto <= rules.len(),
    ensures
        rules_fault(view, rules, upto) is None <==> forall|r: int|
            0 <= r < upto ==> fits_the_graph(view, #[trigger] rules[r]),
    decreases upto,
{
    if upto > 0 {
        all_rules_fit(view, rules, upto - 1);
        fitting_rules_have_no_fault(view, rules[upto - 1]);
        if rules_fault(view, rules, upto) is Some && rules_fault(view, rules, upto - 1) is None {
            assert(!fits_the_graph(view, rules[upto - 1]));
        }
    }
}

/// Whether a member was resolved with every feature of its own table.
pub open spec fn is_fully_resolved(view: GraphView, node: int) -> bool {
    view.meta.packages@[node].features matches Decoded::Value(table)
        && view.nodes[node].features matches Decoded::Value(resolved) && forall|i: int|
        0 <= i < table@.len() ==> is_written(resolved, (#[trigger] table@[i]).name@)
}

proof fn full_resolution_is_full(view: GraphView, node: int)
    ensures
        fully_activated(view, node) <==> is_fully_resolved(view, node),
{
    if let Decoded::Value(table) = view.meta.packages@[node].features {
        if let Decoded::Value(resolved) = view.nodes[node].features {
            let features = resolved_features(view, node);
            assert(feature_table_of(view, node) == table@);
            assert forall|i: int| 0 <= i < table@.len() implies features.contains(
                (#[trigger] table@[i]).name@,
            ) == is_written(resolved, table@[i].name@) by {
                super::policy::written_is_listed(resolved, table@[i].name@);
            }
        }
    }
}

proof fn no_member_lacks(view: GraphView, upto: int)
    requires
        0 <= upto <= view.members.len(),
    ensures
        lacking_member(view, upto) is None <==> forall|k: int|
            0 <= k < upto ==> is_fully_resolved(view, #[trigger] view.members[k]),
    decreases upto,
{
    if upto > 0 {
        no_member_lacks(view, upto - 1);
        full_resolution_is_full(view, view.members[upto - 1]);
        if lacking_member(view, upto) is Some && lacking_member(view, upto - 1) is None {
            assert(!is_fully_resolved(view, view.members[upto - 1]));
        }
    }
}

proof fn no_rule_narrows(rules: Seq<RuleView>, upto: int)
    requires
        0 <= upto <= rules.len(),
    ensures
        config::narrowing_rule(rules, upto) is None <==> forall|r: int|
            0 <= r < upto ==> (#[trigger] rules[r]).features is None,
    decreases upto,
{
    if upto > 0 {
        no_rule_narrows(rules, upto - 1);
        if config::narrowing_rule(rules, upto) is Some && config::narrowing_rule(
            rules,
            upto - 1,
        ) is None {
            assert(!(rules[upto - 1].features is None));
        }
    }
}

/// A policy that is in order is accepted on a graph exactly when each of its rules fits the graph
/// and, should any of them narrow its closure, every member was resolved with all of its features:
/// a rule never passes for want of an edge.
pub proof fn policies_that_fit_are_accepted(cfg: RawConfig, view: GraphView, host: Seq<char>)
    requires
        without_graph(cfg, host) is Ok,
    ensures
        ({
            let rules = without_graph(cfg, host)->Ok_0.rules;
            validated(cfg, Some(view), host) is Ok <==> {
                &&& forall|r: int|
                    0 <= r < rules.len() ==> fits_the_graph(view, #[trigger] rules[r])
                &&& (exists|r: int| 0 <= r < rules.len() && (#[trigger] rules[r]).features is Some)
                    ==> forall|k: int|
                    0 <= k < view.members.len() ==> is_fully_resolved(
                        view,
                        #[trigger] view.members[k],
                    )
            }
        }),
        validated(cfg, Some(view), host) matches Ok(said) ==> said.0 == without_graph(
            cfg,
            host,
        )->Ok_0,
{
    let rules = without_graph(cfg, host)->Ok_0.rules;
    all_rules_fit(view, rules, rules.len() as int);
    no_rule_narrows(rules, rules.len() as int);
    no_member_lacks(view, view.members.len() as int);
    if exists|r: int| 0 <= r < rules.len() && (#[trigger] rules[r]).features is Some {
        let r = choose|r: int| 0 <= r < rules.len() && (#[trigger] rules[r]).features is Some;
        assert(!(rules[r].features is None));
    }
}

} // verus!
