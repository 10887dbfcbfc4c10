//! Phase labels and run counters, with the pinned `--timings` line format.

use crate::text::{self, decimal};
use vstd::prelude::*;

verus! {

/// The pipeline phases, in report order.
#[derive(Clone, Copy, Debug, PartialEq, Eq)]
pub enum Phase {
    /// Acquiring the metadata bytes (spawn + read, or file/stdin read).
    Read,
    /// Decoding the metadata, plus rebasing.
    Parse,
    /// Building the graph.
    Graph,
    /// Every forward and reverse traversal.
    Traversals,
    /// Rule evaluation over the reaches (labelled `evaluate`; `rules` is a counter).
    Evaluate,
    /// The manifest rule.
    Manifest,
    /// Rendering the report.
    Report,
    /// Wall time of the whole run.
    Total,
}

/// The label of `phase`.
pub open spec fn phase_label(phase: Phase) -> Seq<char> {
    match phase {
        Phase::Read => "read"@,
        Phase::Parse => "parse"@,
        Phase::Graph => "graph"@,
        Phase::Traversals => "traversals"@,
        Phase::Evaluate => "evaluate"@,
        Phase::Manifest => "manifest"@,
        Phase::Report => "report"@,
        Phase::Total => "total"@,
    }
}

impl Phase {
    /// Every phase, in report order.
    pub const ALL: [Phase; 8] = [
        Phase::Read,
        Phase::Parse,
        Phase::Graph,
        Phase::Traversals,
        Phase::Evaluate,
        Phase::Manifest,
        Phase::Report,
        Phase::Total,
    ];

    /// The label printed by `--timings` and used as the JSON `timings` key.
    #[must_use]
    pub fn label(self) -> (label: &'static str)
        ensures
            label@ == phase_label(self),
    {
        match self {
            Phase::Read => "read",
            Phase::Parse => "parse",
            Phase::Graph => "graph",
            Phase::Traversals => "traversals",
            Phase::Evaluate => "evaluate",
            Phase::Manifest => "manifest",
            Phase::Report => "report",
            Phase::Total => "total",
        }
    }
}

/// The run counters, in report order.
#[derive(Clone, Copy, Debug, PartialEq, Eq, Structural)]
pub struct Counters {
    /// Nodes in the graph (= `packages[]` entries).
    pub packages: u32,
    /// Workspace members.
    pub members: u32,
    /// Normal edges in the graph.
    pub normal_edges: u32,
    /// Distinct package names.
    pub names: u32,
    /// Distinct traversed cfg-only or member-optional edges (a union over roots).
    pub superset_extra_edges: u32,
    /// `direct` rules whose package declares an optional normal dependency.
    pub direct_optional_decls: u32,
    /// Non-member `path+` packages left unrebased under `--workspace-root`.
    pub unrebased_path_deps: u32,
    /// Rules evaluated (graph rules plus the manifest rule).
    pub rules: u32,
    /// Failed rules.
    pub violations: u32,
    /// Matched names across `deny`, `+extra` and `sealed` entries.
    pub matches: u32,
}

impl Default for Counters {
    fn default() -> (counters: Self)
        ensures
            forall|i: int| 0 <= i < 10 ==> (#[trigger] counter_entries(counters)[i]).1 == 0,
    {
        Counters {
            packages: 0,
            members: 0,
            normal_edges: 0,
            names: 0,
            superset_extra_edges: 0,
            direct_optional_decls: 0,
            unrebased_path_deps: 0,
            rules: 0,
            violations: 0,
            matches: 0,
        }
    }
}

/// The labels and values of `counters`, in report order.
pub open spec fn counter_entries(counters: Counters) -> Seq<(Seq<char>, u32)> {
    seq![
        ("packages"@, counters.packages),
        ("members"@, counters.members),
        ("normal_edges"@, counters.normal_edges),
        ("names"@, counters.names),
        ("superset_extra_edges"@, counters.superset_extra_edges),
        ("direct_optional_decls"@, counters.direct_optional_decls),
        ("unrebased_path_deps"@, counters.unrebased_path_deps),
        ("rules"@, counters.rules),
        ("violations"@, counters.violations),
        ("matches"@, counters.matches),
    ]
}

/// One tab-separated line per entry of `entries`.
pub open spec fn counter_lines(entries: Seq<(Seq<char>, u32)>) -> Seq<char>
    decreases entries.len(),
{
    if entries.len() == 0 {
        Seq::empty()
    } else {
        counter_lines(entries.drop_last()) + entries.last().0 + seq!['\t'] + decimal(
            entries.last().1 as nat,
        ) + seq!['\n']
    }
}

impl Counters {
    /// `(label, value)` pairs in report order.
    #[must_use]
    pub fn entries(&self) -> (entries: Vec<(&'static str, u32)>)
        ensures
            entries@.len() == counter_entries(*self).len(),
            forall|i: int|
                #![trigger entries@[i]]
                0 <= i < entries@.len() ==> entries@[i].0@ == counter_entries(*self)[i].0
                    && entries@[i].1 == counter_entries(*self)[i].1,
    {
        vec![
            ("packages", self.packages),
            ("members", self.members),
            ("normal_edges", self.normal_edges),
            ("names", self.names),
            ("superset_extra_edges", self.superset_extra_edges),
            ("direct_optional_decls", self.direct_optional_decls),
            ("unrebased_path_deps", self.unrebased_path_deps),
            ("rules", self.rules),
            ("violations", self.violations),
            ("matches", self.matches),
        ]
    }

    /// Appends one `<counter>\t<n>` line per field.
    pub fn write_to(&self, out: &mut String)
        ensures
            final(out)@ == old(out)@ + counter_lines(counter_entries(*self)),
    {
        let entries = self.entries();
        let ghost spelled = counter_entries(*self);
        let ghost start = out@;
        let mut at: usize = 0;
        assert(spelled.take(0) =~= Seq::empty());
        assert(out@ =~= start + counter_lines(spelled.take(0)));
        while at < entries.len()
            invariant
                at <= entries@.len() == spelled.len(),
                forall|i: int|
                    #![trigger entries@[i]]
                    0 <= i < entries@.len() ==> entries@[i].0@ == spelled[i].0 && entries@[i].1
                        == spelled[i].1,
                out@ == start + counter_lines(spelled.take(at as int)),
            decreases entries@.len() - at,
        {
            let entry = entries[at];
            out.push_str(entry.0);
            out.push('\t');
            text::push_decimal(out, entry.1 as u128);
            out.push('\n');
            proof {
                let now = spelled.take(at + 1);
                assert(now.drop_last() =~= spelled.take(at as int));
                assert(now.last() == spelled[at as int]);
                assert(out@ =~= start + counter_lines(now));
            }
            at = at + 1;
        }
        assert(spelled.take(at as int) =~= spelled);
    }
}

/// The first token of every line that `--timings` prints: those of the phases, then those of the
/// counters.
pub open spec fn printed_labels(counters: Counters) -> Seq<Seq<char>> {
    Seq::new(
        18,
        |i: int|
            if i < 8 {
                phase_label(Phase::ALL@[i])
            } else {
                counter_entries(counters)[i - 8].0
            },
    )
}

/// The place among the printed labels of a label that is one of them.
spec fn place_of_label(label: Seq<char>) -> int {
    if label.len() == 4 {
        0
    } else if label.len() == 5 {
        if label[0] == 'p' {
            1
        } else if label[0] == 'g' {
            2
        } else if label[0] == 't' {
            7
        } else if label[0] == 'n' {
            11
        } else {
            15
        }
    } else if label.len() == 6 {
        6
    } else if label.len() == 7 {
        if label[1] == 'e' {
            9
        } else {
            17
        }
    } else if label.len() == 8 {
        if label[0] == 'e' {
            4
        } else if label[0] == 'm' {
            5
        } else {
            8
        }
    } else if label.len() == 10 {
        if label[0] == 't' {
            3
        } else {
            16
        }
    } else if label.len() == 12 {
        10
    } else if label.len() == 20 {
        12
    } else if label.len() == 21 {
        13
    } else {
        14
    }
}

/// No two lines of `--timings` start with the same token, so a script that looks for one finds one
/// line.
pub proof fn no_label_is_printed_twice(counters: Counters, i: int, j: int)
    requires
        0 <= i < j < 18,
    ensures
        printed_labels(counters)[i] != printed_labels(counters)[j],
{
    reveal_strlit("read");
    reveal_strlit("parse");
    reveal_strlit("graph");
    reveal_strlit("traversals");
    reveal_strlit("evaluate");
    reveal_strlit("manifest");
    reveal_strlit("report");
    reveal_strlit("total");
    reveal_strlit("packages");
    reveal_strlit("members");
    reveal_strlit("normal_edges");
    reveal_strlit("names");
    reveal_strlit("superset_extra_edges");
    reveal_strlit("direct_optional_decls");
    reveal_strlit("unrebased_path_deps");
    reveal_strlit("rules");
    reveal_strlit("violations");
    reveal_strlit("matches");
    let labels = printed_labels(counters);
    assert(place_of_label(labels[0]) == 0);
    assert(place_of_label(labels[1]) == 1);
    assert(place_of_label(labels[2]) == 2);
    assert(place_of_label(labels[3]) == 3);
    assert(place_of_label(labels[4]) == 4);
    assert(place_of_label(labels[5]) == 5);
    assert(place_of_label(labels[6]) == 6);
    assert(place_of_label(labels[7]) == 7);
    assert(place_of_label(labels[8]) == 8);
    assert(place_of_label(labels[9]) == 9);
    assert(place_of_label(labels[10]) == 10);
    assert(place_of_label(labels[11]) == 11);
    assert(place_of_label(labels[12]) == 12);
    assert(place_of_label(labels[13]) == 13);
    assert(place_of_label(labels[14]) == 14);
    assert(place_of_label(labels[15]) == 15);
    assert(place_of_label(labels[16]) == 16);
    assert(place_of_label(labels[17]) == 17);
    assert(place_of_label(labels[i]) == i);
    assert(place_of_label(labels[j]) == j);
}

} // verus!
