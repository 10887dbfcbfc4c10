//! What the manifest rule finds.

use crate::config::place_in;
use crate::document::{fields_in, find, table_of, value_of, TomlEntry, TomlPlaced, TomlView};
use crate::error::ErrorView;
use crate::manifest::{
    level_names, level_versions, manifest_versions, member_scan, preferred, report_below, reported,
    scanned_entries, table_label_text, target_versions, version_of, versions_below, versions_in,
    FoundView, ManifestEntryView, ManifestInput,
};
use crate::order::{self, by_offset};
use vstd::prelude::*;

verus! {

/// Whether `value` is what a table holds under `key`.
pub open spec fn holds(entries: Seq<TomlEntry>, key: Seq<char>, value: TomlPlaced) -> bool {
    exists|i: int|
        #![trigger entries[i]]
        0 <= i < entries.len() && entries[i].key == key && entries[i].value == value && forall|
            j: int,
        |
            0 <= j < i ==> (#[trigger] entries[j]).key != key
}

proof fn looked_up_is_held(entries: Seq<TomlEntry>, key: Seq<char>, upto: int)
    requires
        0 <= upto <= entries.len(),
    ensures
        match find(entries, key, upto) {
            Some(value) => exists|i: int|
                #![trigger entries[i]]
                0 <= i < upto && entries[i].key == key && entries[i].value == value && forall|
                    j: int,
                |
                    0 <= j < i ==> (#[trigger] entries[j]).key != key,
            None => forall|i: int| 0 <= i < upto ==> (#[trigger] entries[i]).key != key,
        },
    decreases upto,
{
    if upto > 0 {
        looked_up_is_held(entries, key, upto - 1);
        if find(entries, key, upto - 1) is None && entries[upto - 1].key == key {
            assert(entries[upto - 1].value == find(entries, key, upto)->0);
        }
    }
}

pub(crate) proof fn held_is_looked_up(entries: Seq<TomlEntry>, key: Seq<char>, value: TomlPlaced)
    ensures
        holds(entries, key, value) <==> value_of(entries, key) == Some(value),
{
    looked_up_is_held(entries, key, entries.len() as int);
    if holds(entries, key, value) {
        let i = choose|i: int|
            #![trigger entries[i]]
            0 <= i < entries.len() && entries[i].key == key && entries[i].value == value && forall|
                j: int,
            |
                0 <= j < i ==> (#[trigger] entries[j]).key != key;
        let other = value_of(entries, key)->0;
        assert(value_of(entries, key) is Some);
        let k = choose|k: int|
            #![trigger entries[k]]
            0 <= k < entries.len() && entries[k].key == key && entries[k].value == other && forall|
                j: int,
            |
                0 <= j < k ==> (#[trigger] entries[j]).key != key;
        assert(i == k);
    }
}

/// A version, the byte that it is written at and how many bytes it takes there.
pub struct NamedVersion {
    pub text: Seq<char>,
    pub offset: usize,
    pub bytes: nat,
}

/// Whether a value is the string of a version and stands where the version is written.
pub open spec fn is_version(value: TomlPlaced, version: NamedVersion) -> bool {
    &&& value.value == TomlView::Text(version.text)
    &&& version.offset == value.start as usize
    &&& version.bytes == if value.start <= value.end {
        value.end - value.start
    } else {
        0
    }
}

/// Whether a dependency names `version`: it is the string, or its table holds it under `version`.
pub open spec fn names_version(spec: TomlPlaced, version: NamedVersion) -> bool {
    ||| is_version(spec, version)
    ||| spec.value is Table && exists|value: TomlPlaced|
        #![trigger holds(spec.value->Table_0, "version"@, value)]
        holds(spec.value->Table_0, "version"@, value) && is_version(value, version)
}

proof fn named_version_is_named(spec: TomlPlaced, version: NamedVersion)
    ensures
        names_version(spec, version) <==> version_of(spec) is Some && (version_of(spec)->0).0
            == version.text && is_version((version_of(spec)->0).1, version),
{
    if let TomlView::Table(entries) = spec.value {
        if let Some(value) = value_of(entries, "version"@) {
            held_is_looked_up(entries, "version"@, value);
            assert(holds(entries, "version"@, value));
        }
        if names_version(spec, version) {
            let value = choose|value: TomlPlaced|
                #![trigger holds(spec.value->Table_0, "version"@, value)]
                holds(spec.value->Table_0, "version"@, value) && is_version(value, version);
            held_is_looked_up(entries, "version"@, value);
        }
    }
}

/// Whether a dependency table has a dependency of that name that names that version.
pub open spec fn lists_version(table: Seq<TomlEntry>, dependency: Seq<char>, version: NamedVersion) -> bool {
    exists|i: int|
        0 <= i < table.len() && (#[trigger] table[i]).key == dependency && names_version(
            table[i].value,
            version,
        )
}

/// Whether `table` is the dependency table `key` of one level of a manifest.
pub open spec fn is_table_at(level: Seq<TomlEntry>, key: Seq<char>, table: Seq<TomlEntry>) -> bool {
    exists|value: TomlPlaced|
        #![trigger holds(level, key, value)]
        holds(level, key, value) && value.value == TomlView::Table(table)
}

/// Whether a level of a manifest has, in the table that a report calls `table`, a dependency of
/// that name that names that version. The hyphenated spelling of a table is the one that counts,
/// unless it is not there or empty.
pub open spec fn level_names_version(
    level: Seq<TomlEntry>,
    table: Seq<char>,
    dependency: Seq<char>,
    version: NamedVersion,
) -> bool {
    exists|list: Seq<TomlEntry>|
        #![trigger lists_version(list, dependency, version)]
        lists_version(list, dependency, version) && {
            ||| table == "dependencies"@ && is_table_at(level, "dependencies"@, list)
            ||| table == "dev-dependencies"@ && (is_table_at(level, "dev-dependencies"@, list) || (
            forall|other: Seq<TomlEntry>| #[trigger]
                is_table_at(level, "dev-dependencies"@, other) ==> other.len() == 0)
                && is_table_at(level, "dev_dependencies"@, list))
            ||| table == "build-dependencies"@ && (is_table_at(level, "build-dependencies"@, list)
                || (forall|other: Seq<TomlEntry>| #[trigger]
                is_table_at(level, "build-dependencies"@, other) ==> other.len() == 0)
                && is_table_at(level, "build_dependencies"@, list))
        }
}

/// Whether a manifest names a version of a dependency in a table: at its root, or under one of
/// its targets, whose key is then part of how the table is called.
pub open spec fn manifest_names_version(
    entries: Seq<TomlEntry>,
    table: Seq<char>,
    dependency: Seq<char>,
    version: NamedVersion,
) -> bool {
    ||| level_names_version(entries, table, dependency, version)
    ||| exists|targets: Seq<TomlEntry>, k: int, level: Seq<TomlEntry>, key: Seq<char>|
        #![trigger is_table_at(entries, "target"@, targets), level_names_version(level, key, dependency, version), targets[k]]
        is_table_at(entries, "target"@, targets) && 0 <= k < targets.len() && fields_in(
            targets[k].value,
            level_names(),
        ) == Some(level) && level_names_version(level, key, dependency, version) && table
            == "target."@ + crate::manifest::key_text(targets[k].key) + "."@ + key
}

/// Whether what was found is `version`, at its place.
spec fn is_found(found: (usize, FoundView), version: NamedVersion) -> bool {
    found.1.version == version.text && found.0 == version.offset && found.1.bytes == version.bytes
}

/// Whether something that was found is that version of that dependency in that table.
spec fn flagged(
    found: Seq<(usize, FoundView)>,
    table: Seq<char>,
    dependency: Seq<char>,
    version: NamedVersion,
) -> bool {
    exists|k: int|
        0 <= k < found.len() && (#[trigger] found[k]).1.table == table && found[k].1.dependency
            == dependency && is_found(found[k], version)
}

proof fn flagged_in_either(
    left: Seq<(usize, FoundView)>,
    right: Seq<(usize, FoundView)>,
    table: Seq<char>,
    dependency: Seq<char>,
    version: NamedVersion,
)
    ensures
        flagged(left + right, table, dependency, version) <==> flagged(
            left,
            table,
            dependency,
            version,
        ) || flagged(right, table, dependency, version),
{
    let both = left + right;
    if flagged(left, table, dependency, version) {
        let k = choose|k: int|
            0 <= k < left.len() && (#[trigger] left[k]).1.table == table && left[k].1.dependency
                == dependency && is_found(left[k], version);
        assert(both[k] == left[k]);
    }
    if flagged(right, table, dependency, version) {
        let k = choose|k: int|
            0 <= k < right.len() && (#[trigger] right[k]).1.table == table && right[k].1.dependency
                == dependency && is_found(right[k], version);
        assert(both[left.len() + k] == right[k]);
    }
    if flagged(both, table, dependency, version) {
        let k = choose|k: int|
            0 <= k < both.len() && (#[trigger] both[k]).1.table == table && both[k].1.dependency
                == dependency && is_found(both[k], version);
        if k < left.len() {
            assert(left[k] == both[k]);
        } else {
            assert(right[k - left.len()] == both[k]);
        }
    }
}

proof fn listed_is_flagged(
    entries: Seq<TomlEntry>,
    label: Seq<char>,
    upto: int,
    table: Seq<char>,
    dependency: Seq<char>,
    version: NamedVersion,
)
    requires
        0 <= upto <= entries.len(),
    ensures
        flagged(versions_below(entries, label, upto), table, dependency, version) <==> label
            == table && exists|i: int|
            0 <= i < upto && (#[trigger] entries[i]).key == dependency && names_version(
                entries[i].value,
                version,
            ),
    decreases upto,
{
    if upto > 0 {
        listed_is_flagged(entries, label, upto - 1, table, dependency, version);
        let last = entries[upto - 1];
        named_version_is_named(last.value, version);
        let before = versions_below(entries, label, upto - 1);
        let now = versions_below(entries, label, upto);
        if version_of(last.value) is Some {
            let added = now[before.len() as int];
            assert(now =~= before + seq![added]);
            flagged_in_either(before, seq![added], table, dependency, version);
            if flagged(seq![added], table, dependency, version) {
                assert(last.key == dependency);
            }
            if label == table && last.key == dependency && names_version(last.value, version) {
                assert(seq![added][0] == added);
            }
        }
    }
}

proof fn table_is_flagged(
    level: Seq<TomlEntry>,
    key: Seq<char>,
    label: Seq<char>,
    table: Seq<char>,
    dependency: Seq<char>,
    version: NamedVersion,
)
    ensures
        flagged(versions_in(table_of(level, key), label), table, dependency, version) <==> label
            == table && exists|list: Seq<TomlEntry>|
            #![trigger lists_version(list, dependency, version)]
            is_table_at(level, key, list) && lists_version(list, dependency, version),
        table_of(level, key).len() == 0 <==> forall|other: Seq<TomlEntry>| #[trigger]
            is_table_at(level, key, other) ==> other.len() == 0,
{
    let list = table_of(level, key);
    listed_is_flagged(list, label, list.len() as int, table, dependency, version);
    if let Some(value) = value_of(level, key) {
        held_is_looked_up(level, key, value);
        assert(holds(level, key, value));
        if value.value is Table {
            assert(is_table_at(level, key, list));
        }
    }
    assert forall|other: Seq<TomlEntry>| #[trigger] is_table_at(level, key, other) implies other
        == list by {
        let value = choose|value: TomlPlaced|
            #![trigger holds(level, key, value)]
            holds(level, key, value) && value.value == TomlView::Table(other);
        held_is_looked_up(level, key, value);
    }
    if flagged(versions_in(list, label), table, dependency, version) {
        assert(lists_version(list, dependency, version));
        let i = choose|i: int|
            0 <= i < list.len() && (#[trigger] list[i]).key == dependency && names_version(
                list[i].value,
                version,
            );
        assert(list.len() > 0);
        assert(is_table_at(level, key, list));
    }
}

proof fn labels_differ()
    ensures
        "dependencies"@ != "dev-dependencies"@,
        "dependencies"@ != "build-dependencies"@,
        "dev-dependencies"@ != "build-dependencies"@,
{
    reveal_strlit("dependencies");
    reveal_strlit("dev-dependencies");
    reveal_strlit("build-dependencies");
    assert("dependencies"@.len() != "dev-dependencies"@.len());
    assert("dependencies"@.len() != "build-dependencies"@.len());
    assert("dev-dependencies"@.len() != "build-dependencies"@.len());
}

/// The label of a table of a level.
spec fn label_of(target: Option<Seq<char>>, key: Seq<char>) -> Seq<char> {
    match target {
        None => key,
        Some(target) => "target."@ + crate::manifest::key_text(target) + "."@ + key,
    }
}

proof fn level_is_flagged(
    level: Seq<TomlEntry>,
    target: Option<Seq<char>>,
    table: Seq<char>,
    dependency: Seq<char>,
    version: NamedVersion,
)
    ensures
        flagged(level_versions(level, target), table, dependency, version) <==> exists|
            key: Seq<char>,
        | #[trigger]
            level_names_version(level, key, dependency, version) && table == label_of(target, key),
{
    let plain = versions_in(
        table_of(level, "dependencies"@),
        table_label_text(target, "dependencies"@),
    );
    let dev = versions_in(
        preferred(level, "dev-dependencies"@, "dev_dependencies"@),
        table_label_text(target, "dev-dependencies"@),
    );
    let build = versions_in(
        preferred(level, "build-dependencies"@, "build_dependencies"@),
        table_label_text(target, "build-dependencies"@),
    );
    labels_differ();
    flagged_in_either(plain + dev, build, table, dependency, version);
    flagged_in_either(plain, dev, table, dependency, version);
    let (d, v, b) = ("dependencies"@, "dev-dependencies"@, "build-dependencies"@);
    table_is_flagged(level, d, label_of(target, d), table, dependency, version);
    table_is_flagged(level, v, label_of(target, v), table, dependency, version);
    table_is_flagged(
        level,
        "dev_dependencies"@,
        label_of(target, v),
        table,
        dependency,
        version,
    );
    table_is_flagged(level, b, label_of(target, b), table, dependency, version);
    table_is_flagged(
        level,
        "build_dependencies"@,
        label_of(target, b),
        table,
        dependency,
        version,
    );
    if flagged(plain, table, dependency, version) {
        assert(level_names_version(level, d, dependency, version));
    }
    if flagged(dev, table, dependency, version) {
        assert(level_names_version(level, v, dependency, version));
    }
    if flagged(build, table, dependency, version) {
        assert(level_names_version(level, b, dependency, version));
    }
    if exists|key: Seq<char>| #[trigger]
        level_names_version(level, key, dependency, version) && table == label_of(target, key) {
        let key = choose|key: Seq<char>| #[trigger]
            level_names_version(level, key, dependency, version) && table == label_of(target, key);
        let list = choose|list: Seq<TomlEntry>|
            #![trigger lists_version(list, dependency, version)]
            lists_version(list, dependency, version) && {
                ||| key == "dependencies"@ && is_table_at(level, "dependencies"@, list)
                ||| key == "dev-dependencies"@ && (is_table_at(level, "dev-dependencies"@, list)
                    || (forall|other: Seq<TomlEntry>| #[trigger]
                    is_table_at(level, "dev-dependencies"@, other) ==> other.len() == 0)
                    && is_table_at(level, "dev_dependencies"@, list))
                ||| key == "build-dependencies"@ && (is_table_at(
                    level,
                    "build-dependencies"@,
                    list,
                ) || (forall|other: Seq<TomlEntry>| #[trigger]
                    is_table_at(level, "build-dependencies"@, other) ==> other.len() == 0)
                    && is_table_at(level, "build_dependencies"@, list))
            };
        let i = choose|i: int|
            0 <= i < list.len() && (#[trigger] list[i]).key == dependency && names_version(
                list[i].value,
                version,
            );
        assert(list.len() > 0);
    }
}

proof fn targets_are_flagged(
    targets: Seq<TomlEntry>,
    upto: int,
    table: Seq<char>,
    dependency: Seq<char>,
    version: NamedVersion,
)
    requires
        0 <= upto <= targets.len(),
    ensures
        flagged(target_versions(targets, upto), table, dependency, version) <==> exists|
            k: int,
            level: Seq<TomlEntry>,
            key: Seq<char>,
        |
            #![trigger level_names_version(level, key, dependency, version), targets[k]]
            0 <= k < upto && fields_in(targets[k].value, level_names()) == Some(level)
                && level_names_version(level, key, dependency, version) && table == label_of(
                Some(targets[k].key),
                key,
            ),
    decreases upto,
{
    if upto > 0 {
        targets_are_flagged(targets, upto - 1, table, dependency, version);
        let last = targets[upto - 1];
        let more = match fields_in(last.value, level_names()) {
            Some(level) => level_versions(level, Some(last.key)),
            None => Seq::empty(),
        };
        flagged_in_either(
            target_versions(targets, upto - 1),
            more,
            table,
            dependency,
            version,
        );
        if let Some(level) = fields_in(last.value, level_names()) {
            level_is_flagged(level, Some(last.key), table, dependency, version);
        }
    }
}

proof fn sorting_keeps_pairs<T>(items: Seq<(usize, T)>, item: (usize, T))
    ensures
        by_offset(items).contains(item) == items.contains(item),
{
    order::sorting_is_sorting(items);
    by_offset(items).to_multiset_ensures();
    items.to_multiset_ensures();
    assert(by_offset(items).contains(item) == (by_offset(items).to_multiset().count(item) > 0));
    assert(items.contains(item) == (items.to_multiset().count(item) > 0));
}

proof fn manifest_is_flagged(
    entries: Seq<TomlEntry>,
    table: Seq<char>,
    dependency: Seq<char>,
    version: NamedVersion,
)
    ensures
        manifest_names_version(entries, table, dependency, version) <==> flagged(
            manifest_versions(entries),
            table,
            dependency,
            version,
        ),
{
    let targets = table_of(entries, "target"@);
    let under = target_versions(targets, targets.len() as int);
    flagged_in_either(level_versions(entries, None), under, table, dependency, version);
    level_is_flagged(entries, None, table, dependency, version);
    targets_are_flagged(targets, targets.len() as int, table, dependency, version);
    if let Some(value) = value_of(entries, "target"@) {
        held_is_looked_up(entries, "target"@, value);
        assert(holds(entries, "target"@, value));
        if value.value is Table {
            assert(is_table_at(entries, "target"@, targets));
        }
    }
    assert forall|other: Seq<TomlEntry>| #[trigger]
        is_table_at(entries, "target"@, other) implies other == targets by {
        let value = choose|value: TomlPlaced|
            #![trigger holds(entries, "target"@, value)]
            holds(entries, "target"@, value) && value.value == TomlView::Table(other);
        held_is_looked_up(entries, "target"@, value);
    }
}

/// Whether an entry of a report is that version of that dependency in that table, at the place
/// where the version is written.
pub open spec fn reports_version(
    entry: ManifestEntryView,
    path: Seq<char>,
    text: Seq<char>,
    table: Seq<char>,
    dependency: Seq<char>,
    version: NamedVersion,
) -> bool {
    &&& entry.table == table
    &&& entry.dependency == dependency
    &&& entry.version == version.text
    &&& entry.span == place_in(path, text, version.offset)
    &&& entry.span_bytes == version.bytes
}

/// Whether an entry of a report stands for a version that the manifest names.
pub open spec fn is_grounded(
    entries: Seq<TomlEntry>,
    path: Seq<char>,
    text: Seq<char>,
    entry: ManifestEntryView,
) -> bool {
    exists|version: NamedVersion|
        manifest_names_version(entries, entry.table, entry.dependency, version)
            && #[trigger] reports_version(
            entry,
            path,
            text,
            entry.table,
            entry.dependency,
            version,
        )
}

/// Whether a report has an entry for a version that the manifest names.
pub open spec fn is_reported(
    report: Seq<ManifestEntryView>,
    path: Seq<char>,
    text: Seq<char>,
    table: Seq<char>,
    dependency: Seq<char>,
    version: NamedVersion,
) -> bool {
    exists|r: int|
        0 <= r < report.len() && reports_version(
            #[trigger] report[r],
            path,
            text,
            table,
            dependency,
            version,
        )
}

/// A manifest that is scanned is reported for exactly the dependencies that name a version: in
/// its three dependency tables and in those of its targets, each under the label of its table, in
/// the file that was read and at the place of the version.
pub proof fn a_scan_reports_every_version(
    package: Seq<char>,
    path: Seq<char>,
    text: Seq<char>,
    entries: Seq<TomlEntry>,
)
    requires
        scanned_entries(package, path, text, entries) is Ok,
    ensures
        forall|table: Seq<char>, dependency: Seq<char>, version: NamedVersion| #[trigger]
            manifest_names_version(entries, table, dependency, version) ==> is_reported(
                scanned_entries(package, path, text, entries)->Ok_0,
                path,
                text,
                table,
                dependency,
                version,
            ),
        forall|r: int|
            #![trigger scanned_entries(package, path, text, entries)->Ok_0[r]]
            0 <= r < scanned_entries(package, path, text, entries)->Ok_0.len() ==> {
                let entry = scanned_entries(package, path, text, entries)->Ok_0[r];
                &&& entry.package == package
                &&& entry.span.0 == path
                &&& is_grounded(entries, path, text, entry)
            },
{
    let found = manifest_versions(entries);
    let sorted = by_offset(found);
    let report = scanned_entries(package, path, text, entries)->Ok_0;
    assert(report == reported(package, path, text, sorted));
    assert forall|table: Seq<char>, dependency: Seq<char>, version: NamedVersion| #[trigger]
        manifest_names_version(entries, table, dependency, version) implies is_reported(
        report,
        path,
        text,
        table,
        dependency,
        version,
    ) by {
        manifest_is_flagged(entries, table, dependency, version);
        let k = choose|k: int|
            0 <= k < found.len() && (#[trigger] found[k]).1.table == table && found[k].1.dependency
                == dependency && is_found(found[k], version);
        assert(found.contains(found[k]));
        sorting_keeps_pairs(found, found[k]);
        let r = choose|r: int| 0 <= r < sorted.len() && sorted[r] == found[k];
        assert(reports_version(report[r], path, text, table, dependency, version));
    }
    assert forall|r: int| #![trigger report[r]] 0 <= r < report.len() implies report[r].package
        == package && report[r].span.0 == path && is_grounded(entries, path, text, report[r]) by {
        assert(sorted.contains(sorted[r]));
        sorting_keeps_pairs(found, sorted[r]);
        let k = choose|k: int| 0 <= k < found.len() && found[k] == sorted[r];
        let version = NamedVersion {
            text: sorted[r].1.version,
            offset: sorted[r].0,
            bytes: sorted[r].1.bytes,
        };
        assert(is_found(found[k], version));
        manifest_is_flagged(entries, report[r].table, report[r].dependency, version);
        assert(reports_version(
            report[r],
            path,
            text,
            report[r].table,
            report[r].dependency,
            version,
        ));
    }
}

/// How many entries the scans of the first `upto` members have together.
pub open spec fn scanned_below(reads: Seq<(ManifestInput, Result<String, String>)>, upto: int) -> int
    decreases upto,
{
    if upto <= 0 {
        0
    } else {
        scanned_below(reads, upto - 1) + member_scan(reads[upto - 1].0, reads[upto - 1].1)->Ok_0.len()
    }
}

proof fn reports_add_up(reads: Seq<(ManifestInput, Result<String, String>)>, upto: int)
    requires
        0 <= upto <= reads.len(),
        report_below(reads, upto) is Ok,
    ensures
        report_below(reads, upto)->Ok_0.entries.len() == scanned_below(reads, upto),
        upto <= u32::MAX ==> report_below(reads, upto)->Ok_0.manifests_scanned == upto,
        scanned_below(reads, upto) >= 0,
    decreases upto,
{
    if upto > 0 {
        reports_add_up(reads, upto - 1);
    }
}

proof fn scans_stand_in_order(
    reads: Seq<(ManifestInput, Result<String, String>)>,
    i: int,
    upto: int,
)
    requires
        0 <= i < upto <= reads.len(),
        report_below(reads, upto) is Ok,
    ensures
        ({
            let entries = report_below(reads, upto)->Ok_0.entries;
            let scan = member_scan(reads[i].0, reads[i].1);
            let from = scanned_below(reads, i);
            &&& scan is Ok
            &&& 0 <= from
            &&& from + scan->Ok_0.len() <= entries.len()
            &&& entries.subrange(from, from + scan->Ok_0.len()) == scan->Ok_0
        }),
    decreases upto,
{
    let before = report_below(reads, upto - 1)->Ok_0.entries;
    let now = report_below(reads, upto)->Ok_0.entries;
    let from = scanned_below(reads, i);
    reports_add_up(reads, upto - 1);
    assert(now == before + member_scan(reads[upto - 1].0, reads[upto - 1].1)->Ok_0);
    let scan = member_scan(reads[i].0, reads[i].1)->Ok_0;
    if i < upto - 1 {
        scans_stand_in_order(reads, i, upto - 1);
        assert(now.subrange(from, from + scan.len()) =~= before.subrange(from, from + scan.len()));
    } else {
        assert(now.subrange(from, from + scan.len()) =~= scan);
    }
}

/// Whether the scan of member `i` stands whole in a report, behind those of the members before.
pub open spec fn stands_whole(
    reads: Seq<(ManifestInput, Result<String, String>)>,
    i: int,
    entries: Seq<ManifestEntryView>,
) -> bool {
    member_scan(reads[i].0, reads[i].1) matches Ok(scan) && {
        let from = scanned_below(reads, i);
        &&& 0 <= from
        &&& from + scan.len() <= entries.len()
        &&& forall|k: int| 0 <= k < scan.len() ==> entries[from + k] == #[trigger] scan[k]
        &&& forall|entry: ManifestEntryView| #[trigger]
            scan.contains(entry) ==> entries.contains(entry)
    }
}

proof fn scans_stand_whole(reads: Seq<(ManifestInput, Result<String, String>)>, i: int)
    requires
        0 <= i < reads.len(),
        report_below(reads, reads.len() as int) is Ok,
    ensures
        stands_whole(reads, i, report_below(reads, reads.len() as int)->Ok_0.entries),
{
    let entries = report_below(reads, reads.len() as int)->Ok_0.entries;
    scans_stand_in_order(reads, i, reads.len() as int);
    let scan = member_scan(reads[i].0, reads[i].1)->Ok_0;
    let from = scanned_below(reads, i);
    let part = entries.subrange(from, from + scan.len());
    assert forall|k: int| 0 <= k < scan.len() implies entries[from + k] == #[trigger] scan[k] by {
        assert(part[k] == entries[from + k]);
    }
    assert forall|entry: ManifestEntryView| #[trigger] scan.contains(entry) implies entries.contains(
        entry,
    ) by {
        let k = choose|k: int| 0 <= k < scan.len() && scan[k] == entry;
        assert(entries[from + k] == scan[k]);
    }
}

/// The report of the manifest rule is what the scans of the members say, one after the other in
/// member order and each of them whole: it passes exactly when every one of them is empty.
pub proof fn every_manifest_is_reported(reads: Seq<(ManifestInput, Result<String, String>)>)
    requires
        report_below(reads, reads.len() as int) is Ok,
    ensures
        ({
            let report = report_below(reads, reads.len() as int)->Ok_0;
            &&& report.entries.len() == scanned_below(reads, reads.len() as int)
            &&& reads.len() <= u32::MAX ==> report.manifests_scanned == reads.len()
            &&& forall|i: int|
                #![trigger reads[i]]
                0 <= i < reads.len() ==> stands_whole(reads, i, report.entries)
            &&& report.entries.len() == 0 <==> forall|i: int|
                0 <= i < reads.len() ==> member_scan(
                    (#[trigger] reads[i]).0,
                    reads[i].1,
                )->Ok_0.len() == 0
        }),
{
    let count = reads.len() as int;
    let report = report_below(reads, count)->Ok_0;
    reports_add_up(reads, count);
    assert forall|i: int| #![trigger reads[i]] 0 <= i < count implies stands_whole(
        reads,
        i,
        report.entries,
    ) by {
        scans_stand_whole(reads, i);
    }
    nothing_adds_up(reads, count);
    if report.entries.len() == 0 {
        assert forall|i: int| 0 <= i < count implies member_scan(
            (#[trigger] reads[i]).0,
            reads[i].1,
        )->Ok_0.len() == 0 by {
            assert(stands_whole(reads, i, report.entries));
        }
    }
}

proof fn nothing_adds_up(reads: Seq<(ManifestInput, Result<String, String>)>, upto: int)
    requires
        0 <= upto <= reads.len(),
    ensures
        (forall|i: int|
            0 <= i < upto ==> member_scan((#[trigger] reads[i]).0, reads[i].1)->Ok_0.len() == 0)
            ==> scanned_below(reads, upto) == 0,
    decreases upto,
{
    if upto > 0 {
        nothing_adds_up(reads, upto - 1);
        assert(reads[upto - 1] == reads[upto - 1]);
    }
}

/// A manifest that cannot be checked is never skipped: the rule is answered exactly when every
/// member's manifest can be scanned, and otherwise the first that cannot be is what is reported.
pub proof fn no_manifest_is_skipped(
    reads: Seq<(ManifestInput, Result<String, String>)>,
    upto: int,
)
    requires
        0 <= upto <= reads.len(),
    ensures
        match report_below(reads, upto) {
            Ok(_) => forall|i: int|
                0 <= i < upto ==> member_scan((#[trigger] reads[i]).0, reads[i].1) is Ok,
            Err(error) => exists|i: int|
                #![trigger reads[i]]
                0 <= i < upto && member_scan(reads[i].0, reads[i].1) == Err::<
                    Seq<ManifestEntryView>,
                    ErrorView,
                >(error) && forall|j: int|
                    0 <= j < i ==> member_scan((#[trigger] reads[j]).0, reads[j].1) is Ok,
        },
    decreases upto,
{
    if upto > 0 {
        no_manifest_is_skipped(reads, upto - 1);
        assert(reads[upto - 1] == reads[upto - 1]);
    }
}

/// What is scanned of a member is the text that was read of its manifest, under its own name and
/// path; a manifest that could not be read is an error that names it.
pub proof fn members_are_scanned_under_their_names(
    member: ManifestInput,
    text: Result<String, String>,
)
    ensures
        match text {
            Err(cause) => member_scan(member, text) == Err::<Seq<ManifestEntryView>, ErrorView>(
                ErrorView::ManifestRead { path: member.path@, cause: cause@ },
            ),
            Ok(text_read) => match crate::document::parsed(text_read@) {
                Ok(entries) => member_scan(member, text) == scanned_entries(
                    member.package@,
                    member.path@,
                    text_read@,
                    entries,
                ),
                Err((cause, _)) => member_scan(member, text) == Err::<
                    Seq<ManifestEntryView>,
                    ErrorView,
                >(ErrorView::ManifestParse { path: member.path@, cause }),
            },
        },
{
}

} // verus!
