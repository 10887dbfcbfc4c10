use cargo_depgate::timings::{Counters, Phase};

#[test]
fn phases_are_reported_in_pipeline_order_with_stable_labels() {
    let labels: Vec<&str> = Phase::ALL.iter().map(|phase| phase.label()).collect();

    assert_eq!(
        labels,
        ["read", "parse", "graph", "traversals", "evaluate", "manifest", "report", "total"]
    );
}

#[test]
fn counter_entries_follow_the_json_counters_order() {
    let labels: Vec<&str> = Counters::default().entries().iter().map(|(label, _)| *label).collect();

    assert_eq!(
        labels,
        [
            "packages",
            "members",
            "normal_edges",
            "names",
            "superset_extra_edges",
            "direct_optional_decls",
            "unrebased_path_deps",
            "rules",
            "violations",
            "matches",
        ]
    );
}

#[test]
fn counters_are_written_one_line_each() {
    let counters = Counters {
        packages: 585,
        members: 14,
        normal_edges: 1586,
        names: 529,
        superset_extra_edges: 7,
        direct_optional_decls: 1,
        unrebased_path_deps: 2,
        rules: 19,
        violations: 3,
        matches: 9,
    };
    let mut out = String::from("total\t0.000\n");

    counters.write_to(&mut out);

    assert_eq!(
        out,
        "total\t0.000\n\
         packages\t585\n\
         members\t14\n\
         normal_edges\t1586\n\
         names\t529\n\
         superset_extra_edges\t7\n\
         direct_optional_decls\t1\n\
         unrebased_path_deps\t2\n\
         rules\t19\n\
         violations\t3\n\
         matches\t9\n"
    );
}

#[test]
fn no_counter_is_named_like_a_phase() {
    for (counter, _) in Counters::default().entries() {
        assert!(Phase::ALL.iter().all(|phase| phase.label() != counter), "{counter}");
    }
}
