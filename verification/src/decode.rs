//! Reading a `depgate.toml`: from the values of a document to a configuration as it was written.
//!
//! Every key has its type and unknown keys are rejected. An array may stand for a table with a
//! fixed set of keys, and gives their values in order. What is wrong is reported at the first
//! key or value, in the order of the document, that may not stand where it does.

use crate::config::{
    place_in, source_span, FeatureValue, Located, PlatformValue, RawConfig, RawGraph, RawInternal,
    RawManifest, RawRule, RawRuleSpec, SourceData,
};
use crate::document::{
    self, elements_of, entries_of, fields_in, met, met_at, misfit, named, no_map, parsed,
    placed_value, refuse, refuse_map, Fields, Misfit, Refusal, TomlEntry, TomlPlaced, TomlView,
};
use crate::error::{Error, ErrorView};
use crate::source::{self, annotated};
use crate::text::{self, texts};
use toml::de::{DeTable, DeValue};
use toml::Spanned;
use vstd::prelude::*;

verus! {

/// A value and the bytes that it is written at.
pub struct At<T> {
    pub value: T,
    pub start: nat,
    pub end: nat,
}

/// A word or a list of words.
pub enum Words {
    Named(Seq<char>),
    List(Seq<Seq<char>>),
}

/// The `[graph]` table.
pub struct GraphTable {
    pub features: At<Words>,
    pub platform: At<Words>,
}

/// The `[internal]` table.
pub struct InternalTable {
    pub members: At<bool>,
    pub patterns: At<Seq<Seq<char>>>,
}

/// The `[manifest]` table.
pub struct ManifestTable {
    pub versions_in_root: At<bool>,
}

/// One `[rules.<package>]` table.
pub struct RuleTable {
    pub features: Option<At<Words>>,
    pub deny: Option<At<Seq<Seq<char>>>>,
    pub require: Option<At<Seq<Seq<char>>>>,
    pub internal: Option<At<Seq<Seq<char>>>>,
    pub leaf: Option<At<bool>>,
    pub direct: Option<At<Seq<Seq<char>>>>,
    pub sealed: Option<At<bool>>,
}

/// A configuration as far as it was read.
pub struct PolicyView {
    pub schema: Option<At<u32>>,
    pub graph: GraphTable,
    pub internal: InternalTable,
    pub manifest: ManifestTable,
    pub rules: Seq<(Seq<char>, At<RuleTable>)>,
}

/// A located value with its strings by their characters.
pub open spec fn at_of<T, U>(located: Located<T>, view: spec_fn(T) -> U) -> At<U> {
    At { value: view(located.value), start: located.start as nat, end: located.end as nat }
}

/// A located value, if there is one.
pub open spec fn optional_at<T, U>(located: Option<Located<T>>, view: spec_fn(T) -> U) -> Option<At<U>> {
    match located {
        Some(located) => Some(at_of(located, view)),
        None => None,
    }
}

/// A flag as it is.
pub open spec fn flag_view() -> spec_fn(bool) -> bool {
    |flag: bool| flag
}

/// The characters of each string.
pub open spec fn list_view() -> spec_fn(Vec<String>) -> Seq<Seq<char>> {
    |list: Vec<String>| texts(list@)
}

/// The characters of a feature selection.
pub open spec fn feature_view() -> spec_fn(FeatureValue) -> Words {
    |value: FeatureValue|
        match value {
            FeatureValue::Named(name) => Words::Named(name@),
            FeatureValue::List(list) => Words::List(texts(list@)),
        }
}

/// The characters of a platform selection.
pub open spec fn platform_view() -> spec_fn(PlatformValue) -> Words {
    |value: PlatformValue|
        match value {
            PlatformValue::Named(name) => Words::Named(name@),
            PlatformValue::List(list) => Words::List(texts(list@)),
        }
}

impl View for RawGraph {
    type V = GraphTable;

    open spec fn view(&self) -> GraphTable {
        GraphTable {
            features: at_of(self.features, feature_view()),
            platform: at_of(self.platform, platform_view()),
        }
    }
}

impl View for RawInternal {
    type V = InternalTable;

    open spec fn view(&self) -> InternalTable {
        InternalTable {
            members: at_of(self.members, flag_view()),
            patterns: at_of(self.patterns, list_view()),
        }
    }
}

impl View for RawManifest {
    type V = ManifestTable;

    open spec fn view(&self) -> ManifestTable {
        ManifestTable { versions_in_root: at_of(self.versions_in_root, flag_view()) }
    }
}

impl View for RawRuleSpec {
    type V = RuleTable;

    open spec fn view(&self) -> RuleTable {
        RuleTable {
            features: optional_at(self.features, feature_view()),
            deny: optional_at(self.deny, list_view()),
            require: optional_at(self.require, list_view()),
            internal: optional_at(self.internal, list_view()),
            leaf: optional_at(self.leaf, flag_view()),
            direct: optional_at(self.direct, list_view()),
            sealed: optional_at(self.sealed, flag_view()),
        }
    }
}

/// The table of a rule.
pub open spec fn rule_table_view() -> spec_fn(RawRuleSpec) -> RuleTable {
    |spec: RawRuleSpec| spec@
}

/// The package and the table of each rule.
pub open spec fn rule_tables(rules: Seq<RawRule>) -> Seq<(Seq<char>, At<RuleTable>)> {
    Seq::new(rules.len(), |i: int| (rules[i].package@, at_of(rules[i].table, rule_table_view())))
}

impl View for RawConfig {
    type V = PolicyView;

    open spec fn view(&self) -> PolicyView {
        PolicyView {
            schema: Some(
                At {
                    value: self.schema.value,
                    start: self.schema.start as nat,
                    end: self.schema.end as nat,
                },
            ),
            graph: self.graph@,
            internal: self.internal@,
            manifest: self.manifest@,
            rules: rule_tables(self.rules@),
        }
    }
}

/// What comes of the first `upto` entries of a table, one after the other.
pub open spec fn folded<S>(
    start: S,
    step: spec_fn(S, TomlEntry) -> Result<S, Misfit>,
    entries: Seq<TomlEntry>,
    upto: int,
) -> Result<S, Misfit>
    decreases upto,
{
    if upto <= 0 {
        Ok(start)
    } else {
        match folded(start, step, entries, upto - 1) {
            Ok(state) => step(state, entries[upto - 1]),
            Err(misfit) => Err(misfit),
        }
    }
}

proof fn fault_stays<S>(
    start: S,
    step: spec_fn(S, TomlEntry) -> Result<S, Misfit>,
    entries: Seq<TomlEntry>,
    upto: int,
    more: int,
)
    requires
        folded(start, step, entries, upto) is Err,
        upto <= more,
    ensures
        folded(start, step, entries, more) == folded(start, step, entries, upto),
    decreases more - upto,
{
    if upto < more {
        fault_stays(start, step, entries, upto, more - 1);
    }
}

/// What comes of a value that has the fields `names`, one after the other.
pub open spec fn read_fields<S>(
    source: Seq<char>,
    value: TomlPlaced,
    expected: Seq<char>,
    names: Seq<Seq<char>>,
    start: S,
    step: spec_fn(S, TomlEntry) -> Result<S, Misfit>,
) -> Result<S, Misfit> {
    match fields_in(value, names) {
        Some(entries) => folded(start, step, entries, entries.len() as int),
        None => Err(misfit(value, met(source, value), expected)),
    }
}

/// What comes of a value that is to be a map, entry by entry.
pub open spec fn read_map<S>(
    source: Seq<char>,
    value: TomlPlaced,
    inner: Seq<char>,
    start: S,
    step: spec_fn(S, TomlEntry) -> Result<S, Misfit>,
) -> Result<S, Misfit> {
    match value.value {
        TomlView::Table(entries) => folded(start, step, entries, entries.len() as int),
        _ => Err(no_map(source, value, inner)),
    }
}

/// The refusal of a key that a table does not have.
pub open spec fn unknown_key(entry: TomlEntry, expected: Seq<char>) -> Misfit {
    Misfit {
        start: entry.key_start,
        end: entry.key_end,
        message: "unknown field `"@ + entry.key + "`, expected "@ + expected,
    }
}

fn refuse_key(fields: &Fields<'_, '_>, index: usize, expected: &str) -> (refusal: Refusal)
    requires
        index < fields.entries().len(),
    ensures
        refusal@ == unknown_key(fields.entries()[index as int], expected@),
{
    let (start, end) = fields.key_span(index);
    let mut message = "unknown field `".to_owned();
    message.push_str(fields.key(index));
    message.push_str("`, expected ");
    message.push_str(expected);
    Refusal { start, end, message }
}

/// A flag.
pub open spec fn read_flag(source: Seq<char>, value: TomlPlaced) -> Result<At<bool>, Misfit> {
    match value.value {
        TomlView::Boolean(flag) => Ok(At { value: flag, start: value.start, end: value.end }),
        _ => Err(misfit(value, met(source, value), "a boolean"@)),
    }
}

fn flag_of(source: &str, value: &Spanned<DeValue<'_>>) -> (result: Result<Located<bool>, Refusal>)
    ensures
        (match result {
            Ok(flag) => Ok(at_of(flag, flag_view())),
            Err(refusal) => Err(refusal@),
        }) == read_flag(source@, placed_value(*value)),
{
    let (start, end) = document::span(value);
    match document::as_flag(value) {
        Some(flag) => Ok(Located { value: flag, start, end }),
        None => {
            let what = met_at(source, value);
            Err(refuse(value, what.as_str(), "a boolean"))
        },
    }
}

/// The first of the first `upto` elements of an array that is no string.
pub open spec fn first_odd(elements: Seq<TomlPlaced>, upto: int) -> Option<int>
    decreases upto,
{
    if upto <= 0 {
        None
    } else {
        match first_odd(elements, upto - 1) {
            Some(odd) => Some(odd),
            None => if elements[upto - 1].value is Text {
                None
            } else {
                Some(upto - 1)
            },
        }
    }
}

proof fn odd_stays(elements: Seq<TomlPlaced>, upto: int, more: int)
    requires
        first_odd(elements, upto) is Some,
        upto <= more,
    ensures
        first_odd(elements, more) == first_odd(elements, upto),
    decreases more - upto,
{
    if upto < more {
        odd_stays(elements, upto, more - 1);
    }
}

/// The strings of an array that holds nothing else.
pub open spec fn strings_of(elements: Seq<TomlPlaced>) -> Seq<Seq<char>> {
    Seq::new(elements.len(), |i: int| elements[i].value->Text_0)
}

/// A list of strings.
pub open spec fn read_list(source: Seq<char>, value: TomlPlaced) -> Result<
    At<Seq<Seq<char>>>,
    Misfit,
> {
    match value.value {
        TomlView::Array(elements) => match first_odd(elements, elements.len() as int) {
            Some(odd) => Err(
                misfit(elements[odd], met(source, elements[odd]), "a string"@),
            ),
            None => Ok(At { value: strings_of(elements), start: value.start, end: value.end }),
        },
        _ => Err(misfit(value, met(source, value), "a sequence"@)),
    }
}

/// The strings of an array, or the first element that is none.
fn strings<'r, 't>(value: &'r Spanned<DeValue<'t>>) -> (result: Option<
    Result<Vec<String>, &'r Spanned<DeValue<'t>>>,
>)
    ensures
        match (result, placed_value(*value).value) {
            (None, TomlView::Array(_)) => false,
            (None, _) => true,
            (Some(Ok(list)), TomlView::Array(elements)) => first_odd(
                elements,
                elements.len() as int,
            ) is None && texts(list@) == strings_of(elements),
            (Some(Err(odd)), TomlView::Array(elements)) => {
                let first = first_odd(elements, elements.len() as int);
                first is Some && placed_value(*odd) == elements[first->0]
            },
            _ => false,
        },
{
    let array = match document::as_array(value) {
        Some(array) => array,
        None => return None,
    };
    let ghost elements = elements_of(*array);
    let count = document::length(array);
    let mut list: Vec<String> = Vec::new();
    let mut at: usize = 0;
    while at < count
        invariant
            at <= count == elements.len(),
            elements == elements_of(*array),
            placed_value(*value).value == TomlView::Array(elements),
            first_odd(elements, at as int) is None,
            list@.len() == at,
            forall|i: int| 0 <= i < at ==> (#[trigger] list@[i])@ == elements[i].value->Text_0,
        decreases count - at,
    {
        let element = document::element(array, at);
        match document::as_text(element) {
            Some(text) => list.push(text.to_owned()),
            None => {
                proof {
                    odd_stays(elements, at + 1, count as int);
                }
                return Some(Err(element));
            },
        }
        at = at + 1;
    }
    assert(texts(list@) =~= strings_of(elements));
    Some(Ok(list))
}

fn list_of(source: &str, value: &Spanned<DeValue<'_>>) -> (result: Result<
    Located<Vec<String>>,
    Refusal,
>)
    ensures
        (match result {
            Ok(list) => Ok(at_of(list, list_view())),
            Err(refusal) => Err(refusal@),
        }) == read_list(source@, placed_value(*value)),
{
    let (start, end) = document::span(value);
    match strings(value) {
        Some(Ok(list)) => Ok(Located { value: list, start, end }),
        Some(Err(odd)) => {
            let what = met_at(source, odd);
            Err(refuse(odd, what.as_str(), "a string"))
        },
        None => {
            let what = met_at(source, value);
            Err(refuse(value, what.as_str(), "a sequence"))
        },
    }
}

/// A string or a list of strings; anything else is refused by the name of the choice.
pub open spec fn read_words(value: TomlPlaced, choice: Seq<char>) -> Result<At<Words>, Misfit> {
    let refusal = Misfit {
        start: value.start,
        end: value.end,
        message: "data did not match any variant of untagged enum "@ + choice,
    };
    match value.value {
        TomlView::Text(name) => Ok(
            At { value: Words::Named(name), start: value.start, end: value.end },
        ),
        TomlView::Array(elements) => match first_odd(elements, elements.len() as int) {
            Some(_) => Err(refusal),
            None => Ok(
                At {
                    value: Words::List(strings_of(elements)),
                    start: value.start,
                    end: value.end,
                },
            ),
        },
        _ => Err(refusal),
    }
}

fn refuse_choice(value: &Spanned<DeValue<'_>>, choice: &str) -> (refusal: Refusal)
    ensures
        refusal@ == (Misfit {
            start: placed_value(*value).start,
            end: placed_value(*value).end,
            message: "data did not match any variant of untagged enum "@ + choice@,
        }),
{
    let (start, end) = document::span(value);
    let mut message = "data did not match any variant of untagged enum ".to_owned();
    message.push_str(choice);
    Refusal { start, end, message }
}

fn features_of(value: &Spanned<DeValue<'_>>) -> (result: Result<Located<FeatureValue>, Refusal>)
    ensures
        (match result {
            Ok(value) => Ok(at_of(value, feature_view())),
            Err(refusal) => Err(refusal@),
        }) == read_words(placed_value(*value), "FeatureValue"@),
{
    let (start, end) = document::span(value);
    if let Some(name) = document::as_text(value) {
        return Ok(Located { value: FeatureValue::Named(name.to_owned()), start, end });
    }
    match strings(value) {
        Some(Ok(list)) => Ok(Located { value: FeatureValue::List(list), start, end }),
        _ => Err(refuse_choice(value, "FeatureValue")),
    }
}

fn platform_of(value: &Spanned<DeValue<'_>>) -> (result: Result<Located<PlatformValue>, Refusal>)
    ensures
        (match result {
            Ok(value) => Ok(at_of(value, platform_view())),
            Err(refusal) => Err(refusal@),
        }) == read_words(placed_value(*value), "PlatformValue"@),
{
    let (start, end) = document::span(value);
    if let Some(name) = document::as_text(value) {
        return Ok(Located { value: PlatformValue::Named(name.to_owned()), start, end });
    }
    match strings(value) {
        Some(Ok(list)) => Ok(Located { value: PlatformValue::List(list), start, end }),
        _ => Err(refuse_choice(value, "PlatformValue")),
    }
}

/// A schema version.
pub open spec fn read_schema(source: Seq<char>, value: TomlPlaced) -> Result<At<u32>, Misfit> {
    match value.value {
        TomlView::Integer(Some(number)) if 0 <= number <= u32::MAX => Ok(
            At { value: number as u32, start: value.start, end: value.end },
        ),
        TomlView::Integer(_) => Err(
            Misfit {
                start: value.start,
                end: value.end,
                message: "invalid value: "@ + met(source, value) + ", expected u32"@,
            },
        ),
        _ => Err(misfit(value, met(source, value), "u32"@)),
    }
}

fn schema_of(source: &str, value: &Spanned<DeValue<'_>>) -> (result: Result<Located<u32>, Refusal>)
    ensures
        (match result {
            Ok(schema) => Ok(
                At { value: schema.value, start: schema.start as nat, end: schema.end as nat },
            ),
            Err(refusal) => Err(refusal@),
        }) == read_schema(source@, placed_value(*value)),
{
    let (start, end) = document::span(value);
    match document::as_integer(value) {
        Some(number) => {
            if let Some(number) = number {
                if 0 <= number && number <= 4294967295 {
                    return Ok(Located { value: number as u32, start, end });
                }
            }
            let mut message = "invalid value: ".to_owned();
            let what = met_at(source, value);
            message.push_str(what.as_str());
            message.push_str(", expected u32");
            Err(Refusal { start, end, message })
        },
        None => {
            let what = met_at(source, value);
            Err(refuse(value, what.as_str(), "u32"))
        },
    }
}

/// The keys of the `[graph]` table, in the order in which an array gives their values.
pub open spec fn graph_names() -> Seq<Seq<char>> {
    seq!["features"@, "platform"@]
}

/// The `[graph]` table when nothing is written.
pub open spec fn default_graph() -> GraphTable {
    GraphTable {
        features: At { value: Words::Named("default"@), start: 0, end: 0 },
        platform: At { value: Words::Named("all"@), start: 0, end: 0 },
    }
}

/// One key of the `[graph]` table.
pub open spec fn graph_step(source: Seq<char>) -> spec_fn(GraphTable, TomlEntry) -> Result<GraphTable, Misfit> {
    |table: GraphTable, entry: TomlEntry|
        if entry.key == "features"@ {
            match read_words(entry.value, "FeatureValue"@) {
                Ok(features) => Ok(GraphTable { features, ..table }),
                Err(misfit) => Err(misfit),
            }
        } else if entry.key == "platform"@ {
            match read_words(entry.value, "PlatformValue"@) {
                Ok(platform) => Ok(GraphTable { platform, ..table }),
                Err(misfit) => Err(misfit),
            }
        } else {
            Err(unknown_key(entry, "`features` or `platform`"@))
        }
}

fn graph_of(source: &str, value: &Spanned<DeValue<'_>>) -> (result: Result<RawGraph, Refusal>)
    ensures
        (match result {
            Ok(table) => Ok(table@),
            Err(refusal) => Err(refusal@),
        }) == read_fields(
            source@,
            placed_value(*value),
            "struct RawGraph"@,
            graph_names(),
            default_graph(),
            graph_step(source@),
        ),
{
    let names = vec!["features", "platform"];
    assert(named(names@) =~= graph_names());
    let fields = match document::fields_of(value, names) {
        Some(fields) => fields,
        None => {
            let what = met_at(source, value);
            return Err(refuse(value, what.as_str(), "struct RawGraph"));
        },
    };
    let ghost entries = fields.entries();
    let ghost step = graph_step(source@);
    let count = fields.count();
    let mut state = RawGraph::default();
    let mut at: usize = 0;
    assert(state@ == default_graph()) by {
    }
    while at < count
        invariant
            at <= count == entries.len(),
            entries == fields.entries(),
            fields_in(placed_value(*value), graph_names()) == Some(entries),
            step == graph_step(source@),
            folded(default_graph(), step, entries, at as int) == Ok::<GraphTable, Misfit>(state@),
        decreases count - at,
    {
        let key = fields.key(at);
        let item = fields.item(at);
        let ghost before = state@;
        let mut refusal: Option<Refusal> = None;
        if text::same(key, "features") {
            match features_of(item) {
                Ok(read) => {
                    state.features = read;
                },
                Err(refused) => {
                    refusal = Some(refused);
                },
            }
        } else if text::same(key, "platform") {
            match platform_of(item) {
                Ok(read) => {
                    state.platform = read;
                },
                Err(refused) => {
                    refusal = Some(refused);
                },
            }
        } else {
            refusal = Some(refuse_key(&fields, at, "`features` or `platform`"));
        }
        assert(step(before, entries[at as int]) == (match refusal {
            Some(refused) => Err(refused@),
            None => Ok(state@),
        }));
        if let Some(refused) = refusal {
            proof {
                fault_stays(default_graph(), step, entries, at + 1, count as int);
            }
            return Err(refused);
        }
        at = at + 1;
    }
    Ok(state)
}

/// The keys of the `[internal]` table, in the order in which an array gives their values.
pub open spec fn internal_names() -> Seq<Seq<char>> {
    seq!["members"@, "patterns"@]
}

/// The `[internal]` table when nothing is written.
pub open spec fn default_internal() -> InternalTable {
    InternalTable {
        members: At { value: true, start: 0, end: 0 },
        patterns: At { value: Seq::empty(), start: 0, end: 0 },
    }
}

/// One key of the `[internal]` table.
pub open spec fn internal_step(source: Seq<char>) -> spec_fn(InternalTable, TomlEntry) -> Result<InternalTable, Misfit> {
    |table: InternalTable, entry: TomlEntry|
        if entry.key == "members"@ {
            match read_flag(source, entry.value) {
                Ok(members) => Ok(InternalTable { members, ..table }),
                Err(misfit) => Err(misfit),
            }
        } else if entry.key == "patterns"@ {
            match read_list(source, entry.value) {
                Ok(patterns) => Ok(InternalTable { patterns, ..table }),
                Err(misfit) => Err(misfit),
            }
        } else {
            Err(unknown_key(entry, "`members` or `patterns`"@))
        }
}

fn internal_of(source: &str, value: &Spanned<DeValue<'_>>) -> (result: Result<RawInternal, Refusal>)
    ensures
        (match result {
            Ok(table) => Ok(table@),
            Err(refusal) => Err(refusal@),
        }) == read_fields(
            source@,
            placed_value(*value),
            "struct RawInternal"@,
            internal_names(),
            default_internal(),
            internal_step(source@),
        ),
{
    let names = vec!["members", "patterns"];
    assert(named(names@) =~= internal_names());
    let fields = match document::fields_of(value, names) {
        Some(fields) => fields,
        None => {
            let what = met_at(source, value);
            return Err(refuse(value, what.as_str(), "struct RawInternal"));
        },
    };
    let ghost entries = fields.entries();
    let ghost step = internal_step(source@);
    let count = fields.count();
    let mut state = RawInternal::default();
    let mut at: usize = 0;
    assert(state@ == default_internal()) by {
        assert(texts(state.patterns.value@) =~= Seq::<Seq<char>>::empty());
    }
    while at < count
        invariant
            at <= count == entries.len(),
            entries == fields.entries(),
            fields_in(placed_value(*value), internal_names()) == Some(entries),
            step == internal_step(source@),
            folded(default_internal(), step, entries, at as int) == Ok::<InternalTable, Misfit>(state@),
        decreases count - at,
    {
        let key = fields.key(at);
        let item = fields.item(at);
        let ghost before = state@;
        let mut refusal: Option<Refusal> = None;
        if text::same(key, "members") {
            match flag_of(source, item) {
                Ok(read) => {
                    state.members = read;
                },
                Err(refused) => {
                    refusal = Some(refused);
                },
            }
        } else if text::same(key, "patterns") {
            match list_of(source, item) {
                Ok(read) => {
                    state.patterns = read;
                },
                Err(refused) => {
                    refusal = Some(refused);
                },
            }
        } else {
            refusal = Some(refuse_key(&fields, at, "`members` or `patterns`"));
        }
        assert(step(before, entries[at as int]) == (match refusal {
            Some(refused) => Err(refused@),
            None => Ok(state@),
        }));
        if let Some(refused) = refusal {
            proof {
                fault_stays(default_internal(), step, entries, at + 1, count as int);
            }
            return Err(refused);
        }
        at = at + 1;
    }
    Ok(state)
}

/// The keys of the `[manifest]` table, in the order in which an array gives their values.
pub open spec fn manifest_names() -> Seq<Seq<char>> {
    seq!["versions-in-root"@]
}

/// The `[manifest]` table when nothing is written.
pub open spec fn default_manifest() -> ManifestTable {
    ManifestTable { versions_in_root: At { value: true, start: 0, end: 0 } }
}

/// One key of the `[manifest]` table.
pub open spec fn manifest_step(source: Seq<char>) -> spec_fn(ManifestTable, TomlEntry) -> Result<ManifestTable, Misfit> {
    |table: ManifestTable, entry: TomlEntry|
        if entry.key == "versions-in-root"@ {
            match read_flag(source, entry.value) {
                Ok(versions_in_root) => Ok(ManifestTable { versions_in_root }),
                Err(misfit) => Err(misfit),
            }
        } else {
            Err(unknown_key(entry, "`versions-in-root`"@))
        }
}

fn manifest_of(source: &str, value: &Spanned<DeValue<'_>>) -> (result: Result<RawManifest, Refusal>)
    ensures
        (match result {
            Ok(table) => Ok(table@),
            Err(refusal) => Err(refusal@),
        }) == read_fields(
            source@,
            placed_value(*value),
            "struct RawManifest"@,
            manifest_names(),
            default_manifest(),
            manifest_step(source@),
        ),
{
    let names = vec!["versions-in-root"];
    assert(named(names@) =~= manifest_names());
    let fields = match document::fields_of(value, names) {
        Some(fields) => fields,
        None => {
            let what = met_at(source, value);
            return Err(refuse(value, what.as_str(), "struct RawManifest"));
        },
    };
    let ghost entries = fields.entries();
    let ghost step = manifest_step(source@);
    let count = fields.count();
    let mut state = RawManifest::default();
    let mut at: usize = 0;
    assert(state@ == default_manifest()) by {
    }
    while at < count
        invariant
            at <= count == entries.len(),
            entries == fields.entries(),
            fields_in(placed_value(*value), manifest_names()) == Some(entries),
            step == manifest_step(source@),
            folded(default_manifest(), step, entries, at as int) == Ok::<ManifestTable, Misfit>(state@),
        decreases count - at,
    {
        let key = fields.key(at);
        let item = fields.item(at);
        let ghost before = state@;
        let mut refusal: Option<Refusal> = None;
        if text::same(key, "versions-in-root") {
            match flag_of(source, item) {
                Ok(read) => {
                    state.versions_in_root = read;
                },
                Err(refused) => {
                    refusal = Some(refused);
                },
            }
        } else {
            refusal = Some(refuse_key(&fields, at, "`versions-in-root`"));
        }
        assert(step(before, entries[at as int]) == (match refusal {
            Some(refused) => Err(refused@),
            None => Ok(state@),
        }));
        if let Some(refused) = refusal {
            proof {
                fault_stays(default_manifest(), step, entries, at + 1, count as int);
            }
            return Err(refused);
        }
        at = at + 1;
    }
    Ok(state)
}

/// The keys of the table of a rule, in the order in which an array gives their values.
pub open spec fn rule_names() -> Seq<Seq<char>> {
    seq!["features"@, "deny"@, "require"@, "internal"@, "leaf"@, "direct"@, "sealed"@]
}

/// A `[rules.<package>]` table when nothing is written.
pub open spec fn default_rule() -> RuleTable {
    RuleTable {
        features: None,
        deny: None,
        require: None,
        internal: None,
        leaf: None,
        direct: None,
        sealed: None,
    }
}

/// One key of a `[rules.<package>]` table.
pub open spec fn rule_step(source: Seq<char>) -> spec_fn(RuleTable, TomlEntry) -> Result<RuleTable, Misfit> {
    |table: RuleTable, entry: TomlEntry|
        if entry.key == "features"@ {
            match read_words(entry.value, "FeatureValue"@) {
                Ok(value) => Ok(RuleTable { features: Some(value), ..table }),
                Err(misfit) => Err(misfit),
            }
        } else if entry.key == "deny"@ {
            match read_list(source, entry.value) {
                Ok(value) => Ok(RuleTable { deny: Some(value), ..table }),
                Err(misfit) => Err(misfit),
            }
        } else if entry.key == "require"@ {
            match read_list(source, entry.value) {
                Ok(value) => Ok(RuleTable { require: Some(value), ..table }),
                Err(misfit) => Err(misfit),
            }
        } else if entry.key == "internal"@ {
            match read_list(source, entry.value) {
                Ok(value) => Ok(RuleTable { internal: Some(value), ..table }),
                Err(misfit) => Err(misfit),
            }
        } else if entry.key == "leaf"@ {
            match read_flag(source, entry.value) {
                Ok(value) => Ok(RuleTable { leaf: Some(value), ..table }),
                Err(misfit) => Err(misfit),
            }
        } else if entry.key == "direct"@ {
            match read_list(source, entry.value) {
                Ok(value) => Ok(RuleTable { direct: Some(value), ..table }),
                Err(misfit) => Err(misfit),
            }
        } else if entry.key == "sealed"@ {
            match read_flag(source, entry.value) {
                Ok(value) => Ok(RuleTable { sealed: Some(value), ..table }),
                Err(misfit) => Err(misfit),
            }
        } else {
            Err(unknown_key(entry, "one of `features`, `deny`, `require`, `internal`, `leaf`, `direct`, `sealed`"@))
        }
}

fn rule_of(source: &str, value: &Spanned<DeValue<'_>>) -> (result: Result<RawRuleSpec, Refusal>)
    ensures
        (match result {
            Ok(table) => Ok(table@),
            Err(refusal) => Err(refusal@),
        }) == read_fields(
            source@,
            placed_value(*value),
            "struct RawRuleSpec"@,
            rule_names(),
            default_rule(),
            rule_step(source@),
        ),
{
    let names = vec!["features", "deny", "require", "internal", "leaf", "direct", "sealed"];
    assert(named(names@) =~= rule_names());
    let fields = match document::fields_of(value, names) {
        Some(fields) => fields,
        None => {
            let what = met_at(source, value);
            return Err(refuse(value, what.as_str(), "struct RawRuleSpec"));
        },
    };
    let ghost entries = fields.entries();
    let ghost step = rule_step(source@);
    let count = fields.count();
    let mut state = RawRuleSpec::default();
    let mut at: usize = 0;
    assert(state@ == default_rule()) by {
    }
    while at < count
        invariant
            at <= count == entries.len(),
            entries == fields.entries(),
            fields_in(placed_value(*value), rule_names()) == Some(entries),
            step == rule_step(source@),
            folded(default_rule(), step, entries, at as int) == Ok::<RuleTable, Misfit>(state@),
        decreases count - at,
    {
        let key = fields.key(at);
        let item = fields.item(at);
        let ghost before = state@;
        let mut refusal: Option<Refusal> = None;
        if text::same(key, "features") {
            match features_of(item) {
                Ok(read) => {
                    state.features = Some(read);
                },
                Err(refused) => {
                    refusal = Some(refused);
                },
            }
        } else if text::same(key, "deny") {
            match list_of(source, item) {
                Ok(read) => {
                    state.deny = Some(read);
                },
                Err(refused) => {
                    refusal = Some(refused);
                },
            }
        } else if text::same(key, "require") {
            match list_of(source, item) {
                Ok(read) => {
                    state.require = Some(read);
                },
                Err(refused) => {
                    refusal = Some(refused);
                },
            }
        } else if text::same(key, "internal") {
            match list_of(source, item) {
                Ok(read) => {
                    state.internal = Some(read);
                },
                Err(refused) => {
                    refusal = Some(refused);
                },
            }
        } else if text::same(key, "leaf") {
            match flag_of(source, item) {
                Ok(read) => {
                    state.leaf = Some(read);
                },
                Err(refused) => {
                    refusal = Some(refused);
                },
            }
        } else if text::same(key, "direct") {
            match list_of(source, item) {
                Ok(read) => {
                    state.direct = Some(read);
                },
                Err(refused) => {
                    refusal = Some(refused);
                },
            }
        } else if text::same(key, "sealed") {
            match flag_of(source, item) {
                Ok(read) => {
                    state.sealed = Some(read);
                },
                Err(refused) => {
                    refusal = Some(refused);
                },
            }
        } else {
            refusal = Some(refuse_key(&fields, at, "one of `features`, `deny`, `require`, `internal`, `leaf`, `direct`, `sealed`"));
        }
        assert(step(before, entries[at as int]) == (match refusal {
            Some(refused) => Err(refused@),
            None => Ok(state@),
        }));
        if let Some(refused) = refusal {
            proof {
                fault_stays(default_rule(), step, entries, at + 1, count as int);
            }
            return Err(refused);
        }
        at = at + 1;
    }
    Ok(state)
}

/// One package of the `[rules]` table.
pub open spec fn rules_step(source: Seq<char>) -> spec_fn(
    Seq<(Seq<char>, At<RuleTable>)>,
    TomlEntry,
) -> Result<Seq<(Seq<char>, At<RuleTable>)>, Misfit> {
    |rules: Seq<(Seq<char>, At<RuleTable>)>, entry: TomlEntry|
        match read_fields(
            source,
            entry.value,
            "struct RawRuleSpec"@,
            rule_names(),
            default_rule(),
            rule_step(source),
        ) {
            Ok(table) => Ok(
                rules.push(
                    (
                        entry.key,
                        At { value: table, start: entry.value.start, end: entry.value.end },
                    ),
                ),
            ),
            Err(misfit) => Err(misfit),
        }
}

fn rules_of(source: &str, value: &Spanned<DeValue<'_>>) -> (result: Result<Vec<RawRule>, Refusal>)
    ensures
        (match result {
            Ok(rules) => Ok(rule_tables(rules@)),
            Err(refusal) => Err(refusal@),
        }) == read_map(
            source@,
            placed_value(*value),
            "a spanned value"@,
            Seq::empty(),
            rules_step(source@),
        ),
{
    let table = match document::as_table(value) {
        Some(table) => table,
        None => {
            return Err(refuse_map(source, value, "a spanned value"));
        },
    };
    let ghost entries = entries_of(*table);
    let ghost step = rules_step(source@);
    let ghost none = Seq::<(Seq<char>, At<RuleTable>)>::empty();
    let count = document::size(table);
    let mut rules: Vec<RawRule> = Vec::new();
    let mut at: usize = 0;
    assert(rule_tables(rules@) =~= none);
    while at < count
        invariant
            at <= count == entries.len(),
            entries == entries_of(*table),
            placed_value(*value).value == TomlView::Table(entries),
            step == rules_step(source@),
            none == Seq::<(Seq<char>, At<RuleTable>)>::empty(),
            folded(none, step, entries, at as int) == Ok::<
                Seq<(Seq<char>, At<RuleTable>)>,
                Misfit,
            >(rule_tables(rules@)),
        decreases count - at,
    {
        let item = document::item(table, at);
        let ghost before = rule_tables(rules@);
        match rule_of(source, item) {
            Ok(spec) => {
                let (start, end) = document::span(item);
                let rule = RawRule {
                    package: document::key(table, at).to_owned(),
                    table: Located { value: spec, start, end },
                };
                rules.push(rule);
                assert(rule_tables(rules@) =~= before.push(
                    (rule.package@, at_of(rule.table, rule_table_view())),
                ));
            },
            Err(refused) => {
                proof {
                    fault_stays(none, step, entries, at + 1, count as int);
                }
                return Err(refused);
            },
        }
        at = at + 1;
    }
    Ok(rules)
}

/// A configuration of which nothing is written.
pub open spec fn default_policy() -> PolicyView {
    PolicyView {
        schema: None,
        graph: default_graph(),
        internal: default_internal(),
        manifest: default_manifest(),
        rules: Seq::empty(),
    }
}

/// One key of a configuration.
pub open spec fn policy_step(source: Seq<char>) -> spec_fn(PolicyView, TomlEntry) -> Result<
    PolicyView,
    Misfit,
> {
    |policy: PolicyView, entry: TomlEntry|
        if entry.key == "schema"@ {
            match read_schema(source, entry.value) {
                Ok(schema) => Ok(PolicyView { schema: Some(schema), ..policy }),
                Err(misfit) => Err(misfit),
            }
        } else if entry.key == "graph"@ {
            match read_fields(
                source,
                entry.value,
                "struct RawGraph"@,
                graph_names(),
                default_graph(),
                graph_step(source),
            ) {
                Ok(graph) => Ok(PolicyView { graph, ..policy }),
                Err(misfit) => Err(misfit),
            }
        } else if entry.key == "internal"@ {
            match read_fields(
                source,
                entry.value,
                "struct RawInternal"@,
                internal_names(),
                default_internal(),
                internal_step(source),
            ) {
                Ok(internal) => Ok(PolicyView { internal, ..policy }),
                Err(misfit) => Err(misfit),
            }
        } else if entry.key == "manifest"@ {
            match read_fields(
                source,
                entry.value,
                "struct RawManifest"@,
                manifest_names(),
                default_manifest(),
                manifest_step(source),
            ) {
                Ok(manifest) => Ok(PolicyView { manifest, ..policy }),
                Err(misfit) => Err(misfit),
            }
        } else if entry.key == "rules"@ {
            match read_map(
                source,
                entry.value,
                "a spanned value"@,
                Seq::empty(),
                rules_step(source),
            ) {
                Ok(rules) => Ok(PolicyView { rules, ..policy }),
                Err(misfit) => Err(misfit),
            }
        } else {
            Err(
                unknown_key(entry, "one of `schema`, `graph`, `internal`, `manifest`, `rules`"@),
            )
        }
}

/// The configuration that a document holds. It must state its schema.
pub open spec fn read_policy(source: Seq<char>, entries: Seq<TomlEntry>) -> Result<PolicyView, Misfit> {
    match folded(default_policy(), policy_step(source), entries, entries.len() as int) {
        Ok(policy) => if policy.schema is Some {
            Ok(policy)
        } else {
            Err(Misfit { start: 0, end: 0, message: "missing field `schema`"@ })
        },
        Err(misfit) => Err(misfit),
    }
}

/// A configuration under construction.
struct Draft {
    schema: Option<Located<u32>>,
    graph: RawGraph,
    internal: RawInternal,
    manifest: RawManifest,
    rules: Vec<RawRule>,
}

impl View for Draft {
    type V = PolicyView;

    closed spec fn view(&self) -> PolicyView {
        PolicyView {
            schema: match self.schema {
                Some(schema) => Some(
                    At { value: schema.value, start: schema.start as nat, end: schema.end as nat },
                ),
                None => None,
            },
            graph: self.graph@,
            internal: self.internal@,
            manifest: self.manifest@,
            rules: rule_tables(self.rules@),
        }
    }
}

fn blank() -> (draft: Draft)
    ensures
        draft@ == default_policy(),
{
    let draft = Draft {
        schema: None,
        graph: RawGraph::default(),
        internal: RawInternal::default(),
        manifest: RawManifest::default(),
        rules: Vec::new(),
    };
    assert(texts(draft.internal.patterns.value@) =~= Seq::<Seq<char>>::empty());
    assert(rule_tables(draft.rules@) =~= Seq::<(Seq<char>, At<RuleTable>)>::empty());
    draft
}

/// Takes one key of a configuration over into the draft.
fn take_key(source: &str, table: &DeTable<'_>, index: usize, draft: &mut Draft) -> (refusal: Option<
    Refusal,
>)
    requires
        index < entries_of(*table).len(),
    ensures
        policy_step(source@)(old(draft)@, entries_of(*table)[index as int]) == (match refusal {
            Some(refused) => Err(refused@),
            None => Ok(final(draft)@),
        }),
{
    let key = document::key(table, index);
    let item = document::item(table, index);
    if text::same(key, "schema") {
        match schema_of(source, item) {
            Ok(schema) => {
                draft.schema = Some(schema);
                None
            },
            Err(refused) => Some(refused),
        }
    } else if text::same(key, "graph") {
        match graph_of(source, item) {
            Ok(graph) => {
                draft.graph = graph;
                None
            },
            Err(refused) => Some(refused),
        }
    } else if text::same(key, "internal") {
        match internal_of(source, item) {
            Ok(internal) => {
                draft.internal = internal;
                None
            },
            Err(refused) => Some(refused),
        }
    } else if text::same(key, "manifest") {
        match manifest_of(source, item) {
            Ok(manifest) => {
                draft.manifest = manifest;
                None
            },
            Err(refused) => Some(refused),
        }
    } else if text::same(key, "rules") {
        match rules_of(source, item) {
            Ok(rules) => {
                draft.rules = rules;
                None
            },
            Err(refused) => Some(refused),
        }
    } else {
        Some(
            refuse_key(
                &Fields::Keyed(table),
                index,
                "one of `schema`, `graph`, `internal`, `manifest`, `rules`",
            ),
        )
    }
}

/// A configuration error at a place of a document.
pub open spec fn misfit_error(path: Seq<char>, text: Seq<char>, misfit: Misfit) -> ErrorView {
    ErrorView::Configuration {
        message: annotated(text, misfit.start, misfit.end, misfit.message),
        span: Some(place_in(path, text, misfit.start as usize)),
    }
}

/// The configuration in the file `path`, whose text has the root table `entries`.
pub open spec fn decoded(path: Seq<char>, text: Seq<char>, entries: Seq<TomlEntry>) -> Result<
    PolicyView,
    ErrorView,
> {
    match read_policy(text, entries) {
        Ok(policy) => Ok(policy),
        Err(misfit) => Err(misfit_error(path, text, misfit)),
    }
}

/// Whether a configuration is known to come from the text at `path`.
pub open spec fn comes_from(config: RawConfig, path: Seq<char>, text: Seq<char>) -> bool {
    config.source matches Some(source) && source.path@ == path && source.text@ == text
}

fn placed_error(path: &str, text: &str, refusal: Refusal) -> (error: Error)
    ensures
        error@ == misfit_error(path@, text@, refusal@),
{
    let message = source::annotate(text, refusal.start, refusal.end, refusal.message.as_str());
    Error::Configuration { message, span: Some(source_span(path, text, refusal.start)) }
}

/// Decodes a parsed policy file. `document` is the root table of `text`.
///
/// # Errors
///
/// Returns [`Error::Configuration`] at the first key or value that may not stand where it does.
pub fn decode(path: &str, text: &str, document: &DeTable<'_>) -> (result: Result<RawConfig, Error>)
    ensures
        (match result {
            Ok(config) => Ok(config@),
            Err(error) => Err(error@),
        }) == decoded(path@, text@, entries_of(*document)),
        result matches Ok(config) ==> comes_from(config, path@, text@),
{
    let ghost entries = entries_of(*document);
    let ghost step = policy_step(text@);
    let count = document::size(document);
    let mut draft = blank();
    let mut at: usize = 0;
    while at < count
        invariant
            at <= count == entries.len(),
            entries == entries_of(*document),
            step == policy_step(text@),
            folded(default_policy(), step, entries, at as int) == Ok::<PolicyView, Misfit>(draft@),
        decreases count - at,
    {
        if let Some(refused) = take_key(text, document, at, &mut draft) {
            proof {
                fault_stays(default_policy(), step, entries, at + 1, count as int);
            }
            return Err(placed_error(path, text, refused));
        }
        at = at + 1;
    }
    let Draft { schema, graph, internal, manifest, rules } = draft;
    match schema {
        Some(schema) => Ok(
            RawConfig {
                schema,
                graph,
                internal,
                manifest,
                rules,
                source: Some(SourceData { path: path.to_owned(), text: text.to_owned() }),
            },
        ),
        None => Err(
            placed_error(
                path,
                text,
                Refusal { start: 0, end: 0, message: "missing field `schema`".to_owned() },
            ),
        ),
    }
}

/// The configuration in the file `path`, given its text or why that could not be read.
pub open spec fn loaded(path: Seq<char>, text: Result<Seq<char>, Seq<char>>) -> Result<
    PolicyView,
    ErrorView,
> {
    match text {
        Err(cause) => Err(
            ErrorView::Configuration {
                message: "failed to read configuration "@ + path + ": "@ + cause,
                span: None,
            },
        ),
        Ok(text) => match parsed(text) {
            Ok(entries) => decoded(path, text, entries),
            Err((fault, byte)) => Err(
                ErrorView::Configuration {
                    message: fault,
                    span: match byte {
                        Some(byte) => Some(place_in(path, text, byte as usize)),
                        None => None,
                    },
                },
            ),
        },
    }
}

/// Parses a configuration file, given its text or the reason why it could not be read.
///
/// # Errors
///
/// Returns [`Error::Configuration`] when the file could not be read or does not hold a
/// configuration.
pub fn load(path: &str, text: Result<&str, &str>) -> (result: Result<RawConfig, Error>)
    ensures
        (match result {
            Ok(config) => Ok(config@),
            Err(error) => Err(error@),
        }) == loaded(
            path@,
            match text {
                Ok(text) => Ok(text@),
                Err(cause) => Err(cause@),
            },
        ),
        result matches Ok(config) ==> text matches Ok(text) && comes_from(config, path@, text@),
{
    let text = match text {
        Ok(text) => text,
        Err(cause) => {
            let mut message = "failed to read configuration ".to_owned();
            message.push_str(path);
            message.push_str(": ");
            message.push_str(cause);
            return Err(Error::Configuration { message, span: None });
        },
    };
    match document::parse(text) {
        Ok(table) => decode(path, text, &table),
        Err((message, byte)) => Err(
            Error::Configuration {
                message,
                span: match byte {
                    Some(byte) => Some(source_span(path, text, byte)),
                    None => None,
                },
            },
        ),
    }
}

proof fn refused_entry_refuses_the_table<S>(
    start: S,
    step: spec_fn(S, TomlEntry) -> Result<S, Misfit>,
    entries: Seq<TomlEntry>,
    at: int,
)
    requires
        0 <= at < entries.len(),
        forall|state: S| (#[trigger] step(state, entries[at])) is Err,
    ensures
        folded(start, step, entries, entries.len() as int) is Err,
{
    assert(folded(start, step, entries, at + 1) is Err);
    fault_stays(start, step, entries, at + 1, entries.len() as int);
}

/// A policy file with a top-level key that a policy does not have is rejected, whatever else it
/// says.
pub proof fn unknown_keys_are_rejected(source: Seq<char>, entries: Seq<TomlEntry>, at: int)
    requires
        0 <= at < entries.len(),
        entries[at].key != "schema"@,
        entries[at].key != "graph"@,
        entries[at].key != "internal"@,
        entries[at].key != "manifest"@,
        entries[at].key != "rules"@,
    ensures
        read_policy(source, entries) is Err,
{
    refused_entry_refuses_the_table(default_policy(), policy_step(source), entries, at);
}

/// A rule table with a key that rules do not have is rejected.
pub proof fn unknown_rule_keys_are_rejected(
    source: Seq<char>,
    value: TomlPlaced,
    entries: Seq<TomlEntry>,
    at: int,
)
    requires
        value.value == TomlView::Table(entries),
        0 <= at < entries.len(),
        entries[at].key != "features"@,
        entries[at].key != "deny"@,
        entries[at].key != "require"@,
        entries[at].key != "internal"@,
        entries[at].key != "leaf"@,
        entries[at].key != "direct"@,
        entries[at].key != "sealed"@,
    ensures
        read_fields(
            source,
            value,
            "struct RawRuleSpec"@,
            rule_names(),
            default_rule(),
            rule_step(source),
        ) is Err,
{
    refused_entry_refuses_the_table(default_rule(), rule_step(source), entries, at);
}

/// A policy file must state its schema.
pub proof fn the_schema_must_be_stated(source: Seq<char>, entries: Seq<TomlEntry>)
    requires
        forall|i: int| 0 <= i < entries.len() ==> (#[trigger] entries[i]).key != "schema"@,
    ensures
        read_policy(source, entries) is Err,
{
    no_schema_is_read(source, entries, entries.len() as int);
}

proof fn no_schema_is_read(source: Seq<char>, entries: Seq<TomlEntry>, upto: int)
    requires
        0 <= upto <= entries.len(),
        forall|i: int| 0 <= i < entries.len() ==> (#[trigger] entries[i]).key != "schema"@,
    ensures
        folded(default_policy(), policy_step(source), entries, upto) matches Ok(policy)
            ==> policy.schema is None,
    decreases upto,
{
    if upto > 0 {
        no_schema_is_read(source, entries, upto - 1);
        assert(entries[upto - 1].key != "schema"@);
    }
}

} // verus!
