//! What Cargo is asked, and what is made of its answer.

use super::policy::pushed_is_held;
use crate::config::{validated, FeatureSelectionView, RawConfig};
use crate::graph::GraphView;
use crate::metadata::{feature_flags, flag, flags_of, rebased, subcommand, OptionsView};
use crate::pipeline::{after_metadata, planned, spawned_with};
use crate::platform::{distinct_triples, first_stop, known_target, resolved, triple_of};
use crate::text;
use vstd::prelude::*;

verus! {

/// The arguments that Cargo is spawned with.
pub open spec fn arguments_for(options: OptionsView) -> Seq<Seq<char>> {
    subcommand() + flags_of(options)
}

/// Whether two arguments stand one behind the other.
pub open spec fn stand_together(arguments: Seq<Seq<char>>, first: Seq<char>, second: Seq<char>) -> bool {
    exists|i: int|
        0 <= i < arguments.len() - 1 && #[trigger] arguments[i] == first && arguments[i + 1]
            == second
}

proof fn features_take_two_words(features: Seq<Seq<char>>, upto: int)
    requires
        0 <= upto <= features.len(),
    ensures
        feature_flags(features, upto).len() == 2 * upto,
    decreases upto,
{
    if upto > 0 {
        features_take_two_words(features, upto - 1);
    }
}

proof fn features_are_asked_for(features: Seq<Seq<char>>, upto: int, k: int)
    requires
        0 <= k < upto <= features.len(),
    ensures
        stand_together(feature_flags(features, upto), "--features"@, features[k]),
    decreases upto,
{
    let before = feature_flags(features, upto - 1);
    let added = seq!["--features"@, features[upto - 1]];
    let now = feature_flags(features, upto);
    assert(now == before + added);
    if k < upto - 1 {
        features_are_asked_for(features, upto - 1, k);
        let i = choose|i: int|
            0 <= i < before.len() - 1 && #[trigger] before[i] == "--features"@ && before[i + 1]
                == features[k];
        assert(now[i] == before[i]);
        assert(now[i + 1] == before[i + 1]);
    } else {
        let i = before.len() as int;
        assert(now[i] == added[0]);
        assert(now[i + 1] == added[1]);
    }
}

/// What stands in a part of the arguments stands in all of them.
proof fn parts_are_held(left: Seq<Seq<char>>, part: Seq<Seq<char>>, right: Seq<Seq<char>>)
    ensures
        forall|word: Seq<char>| #[trigger]
            part.contains(word) ==> (left + part + right).contains(word),
        forall|first: Seq<char>, second: Seq<char>| #[trigger]
            stand_together(part, first, second) ==> stand_together(
                left + part + right,
                first,
                second,
            ),
{
    let all = left + part + right;
    assert forall|word: Seq<char>| #[trigger] part.contains(word) implies all.contains(word) by {
        let i = choose|i: int| 0 <= i < part.len() && part[i] == word;
        assert(all[left.len() + i] == word);
    }
    assert forall|first: Seq<char>, second: Seq<char>| #[trigger]
        stand_together(part, first, second) implies stand_together(all, first, second) by {
        let i = choose|i: int|
            0 <= i < part.len() - 1 && #[trigger] part[i] == first && part[i + 1] == second;
        assert(all[left.len() + i] == part[i]);
        assert(all[left.len() + i + 1] == part[i + 1]);
    }
}

/// Whether what stands in a part of the arguments stands in all of them.
spec fn is_part(part: Seq<Seq<char>>, all: Seq<Seq<char>>) -> bool {
    &&& forall|word: Seq<char>| #[trigger] part.contains(word) ==> all.contains(word)
    &&& forall|first: Seq<char>, second: Seq<char>| #[trigger]
        stand_together(part, first, second) ==> stand_together(all, first, second)
}

proof fn every_part_is_held(
    head: Seq<Seq<char>>,
    a: Seq<Seq<char>>,
    b: Seq<Seq<char>>,
    c: Seq<Seq<char>>,
    d: Seq<Seq<char>>,
    e: Seq<Seq<char>>,
    f: Seq<Seq<char>>,
)
    ensures
        ({
            let all = head + (a + b + c + d + e + f);
            is_part(a, all) && is_part(b, all) && is_part(c, all) && is_part(d, all) && is_part(
                e,
                all,
            ) && is_part(f, all)
        }),
{
    let all = head + (a + b + c + d + e + f);
    assert(is_part(a, all)) by {
        parts_are_held(head, a, b + c + d + e + f);
        assert(head + a + (b + c + d + e + f) =~= all);
    }
    assert(is_part(b, all)) by {
        parts_are_held(head + a, b, c + d + e + f);
        assert(head + a + b + (c + d + e + f) =~= all);
    }
    assert(is_part(c, all)) by {
        parts_are_held(head + a + b, c, d + e + f);
        assert(head + a + b + c + (d + e + f) =~= all);
    }
    assert(is_part(d, all)) by {
        parts_are_held(head + a + b + c, d, e + f);
        assert(head + a + b + c + d + (e + f) =~= all);
    }
    assert(is_part(e, all)) by {
        parts_are_held(head + a + b + c + d, e, f);
        assert(head + a + b + c + d + e + f =~= all);
    }
    assert(is_part(f, all)) by {
        parts_are_held(head + a + b + c + d + e, f, Seq::empty());
        assert(head + a + b + c + d + e + f + Seq::<Seq<char>>::empty() =~= all);
    }
}

/// Cargo is asked for metadata in the one format that is read, and for what the options say: each
/// flag that is set, the manifest, and every feature, in order.
pub proof fn cargo_is_asked_for_the_options(options: OptionsView)
    ensures
        ({
            let arguments = arguments_for(options);
            &&& arguments.len() >= 3
            &&& arguments[0] == "metadata"@
            &&& arguments[1] == "--format-version"@
            &&& arguments[2] == "1"@
            &&& options.all_features ==> arguments.contains("--all-features"@)
            &&& options.no_default_features ==> arguments.contains("--no-default-features"@)
            &&& options.locked ==> arguments.contains("--locked"@)
            &&& options.offline ==> arguments.contains("--offline"@)
            &&& options.manifest_path matches Some(path) ==> stand_together(
                arguments,
                "--manifest-path"@,
                path,
            )
            &&& forall|k: int|
                0 <= k < options.features.len() ==> stand_together(
                    arguments,
                    "--features"@,
                    #[trigger] options.features[k],
                )
            &&& arguments.len() == 3 + 2 * options.features.len() + (if options.all_features {
                1int
            } else {
                0
            }) + (if options.no_default_features {
                1int
            } else {
                0
            }) + (if options.locked {
                1int
            } else {
                0
            }) + (if options.offline {
                1int
            } else {
                0
            }) + (if options.manifest_path is Some {
                2int
            } else {
                0
            })
        }),
{
    let arguments = arguments_for(options);
    let count = options.features.len() as int;
    let head = subcommand();
    let all = flag(options.all_features, "--all-features"@);
    let bare = flag(options.no_default_features, "--no-default-features"@);
    let manifest = match options.manifest_path {
        Some(path) => seq!["--manifest-path"@, path],
        None => Seq::empty(),
    };
    let locked = flag(options.locked, "--locked"@);
    let features = feature_flags(options.features, count);
    let offline = flag(options.offline, "--offline"@);
    features_take_two_words(options.features, count);
    let flags = all + bare + manifest + locked + features + offline;
    assert(arguments == head + flags);
    assert(arguments[0] == head[0] && arguments[1] == head[1] && arguments[2] == head[2]);
    every_part_is_held(head, all, bare, manifest, locked, features, offline);
    if options.all_features {
        assert(all[0] == "--all-features"@);
        assert(all.contains("--all-features"@));
    }
    if options.no_default_features {
        assert(bare[0] == "--no-default-features"@);
        assert(bare.contains("--no-default-features"@));
    }
    if options.locked {
        assert(locked[0] == "--locked"@);
        assert(locked.contains("--locked"@));
    }
    if options.offline {
        assert(offline[0] == "--offline"@);
        assert(offline.contains("--offline"@));
    }
    if let Some(path) = options.manifest_path {
        assert(manifest[0] == "--manifest-path"@ && manifest[1] == path);
        assert(stand_together(manifest, "--manifest-path"@, path));
    }
    assert forall|k: int| 0 <= k < count implies stand_together(
        arguments,
        "--features"@,
        #[trigger] options.features[k],
    ) by {
        features_are_asked_for(options.features, count, k);
    }
}

/// The selection of a policy file that is read in time reaches Cargo whole, and nothing else of
/// the options changes, unless the command line selects features itself.
pub proof fn policy_features_reach_cargo(options: OptionsView, selection: FeatureSelectionView)
    requires
        options.source is None,
        !options.all_features,
        options.features.len() == 0,
    ensures
        ({
            let spawned = spawned_with(options, selection);
            &&& spawned.all_features <==> selection is All
            &&& selection matches FeatureSelectionView::List(list) ==> spawned.features == list
            &&& !(selection is List) ==> spawned.features.len() == 0
            &&& spawned.no_default_features == options.no_default_features
            &&& spawned.locked == options.locked
            &&& spawned.offline == options.offline
            &&& spawned.manifest_path == options.manifest_path
            &&& spawned.cargo == options.cargo
            &&& spawned.source == options.source
        }),
{
}

/// A selection that is found too late is never passed over in silence: it is an error, unless it
/// is the default, was read in time, or the command line overrides it; and a warning when a
/// document was given that no selection can change.
pub proof fn late_selections_are_not_passed_over(
    explicit: bool,
    options: OptionsView,
    selection: FeatureSelectionView,
)
    ensures
        ({
            let said = after_metadata(explicit, options, selection);
            let selects = options.all_features || options.features.len() > 0;
            &&& said is Err <==> !(selection is Default) && options.source is None && !explicit
                && !selects
            &&& (said is Ok && said->Ok_0 is Some) <==> !(selection is Default) && options.source
                is Some
        }),
{
}

/// A plan keeps every warning of the validation, in order and at the end, and a warning about the
/// feature selection comes before them. The selection that it reports is the one that Cargo was
/// asked for, and a precomputed document has none.
pub proof fn plans_keep_what_was_said(
    cfg: RawConfig,
    view: GraphView,
    host: Seq<char>,
    explicit: bool,
    options: OptionsView,
)
    ensures
        planned(cfg, view, host, explicit, options) matches Ok(plan) ==> {
            let valid = validated(cfg, Some(view), host);
            let said = valid->Ok_0.1;
            let judged = after_metadata(explicit, options, plan.config.features);
            let asked = if explicit {
                spawned_with(options, plan.config.features)
            } else {
                options
            };
            &&& valid is Ok
            &&& plan.config == valid->Ok_0.0
            &&& judged is Ok
            &&& plan.warnings.len() >= said.len()
            &&& plan.warnings.skip(plan.warnings.len() - said.len()) == said
            &&& plan.warnings.len() == said.len() <==> judged->Ok_0 is None
            &&& judged matches Ok(Some(warning)) ==> plan.warnings.len() == said.len() + 1
                && plan.warnings[0] == warning
            &&& plan.features is None <==> options.source is Some
            &&& options.source is None && asked.all_features ==> plan.features == Some(
                FeatureSelectionView::All,
            )
            &&& options.source is None && !asked.all_features && asked.features.len() > 0
                ==> plan.features == Some(FeatureSelectionView::List(asked.features))
            &&& options.source is None && !asked.all_features && asked.features.len() == 0
                ==> plan.features == Some(plan.config.features) && !(plan.config.features is All)
        },
{
    if let Ok(plan) = planned(cfg, view, host, explicit, options) {
        let said = validated(cfg, Some(view), host)->Ok_0.1;
        assert(plan.warnings.skip(plan.warnings.len() - said.len()) =~= said);
    }
}

/// Moving a path from one root to another keeps what is below the root, and moving it back gives
/// the path again; a path that is not below the root is not moved.
pub proof fn rebasing_keeps_what_is_below(
    old_root: Seq<char>,
    new_root: Seq<char>,
    below: Seq<char>,
)
    requires
        old_root.len() > 0,
        new_root.len() > 0,
        old_root[old_root.len() - 1] != '/',
        new_root[new_root.len() - 1] != '/',
    ensures
        rebased(old_root, old_root, new_root) == Some(new_root),
        rebased(old_root + seq!['/'] + below, old_root, new_root) == Some(
            new_root + seq!['/'] + below,
        ),
        rebased(new_root + seq!['/'] + below, new_root, old_root) == Some(
            old_root + seq!['/'] + below,
        ),
        below.len() > 0 && below[0] != '/' ==> rebased(old_root + below, old_root, new_root) is None,
{
    below_is_kept(old_root, new_root, below);
    below_is_kept(new_root, old_root, below);
    assert(old_root.take(old_root.len() as int) =~= old_root);
    let beside = old_root + below;
    assert(beside.take(old_root.len() as int) =~= old_root);
    if below.len() > 0 {
        assert(beside[old_root.len() as int] == below[0]);
    }
}

proof fn below_is_kept(old_root: Seq<char>, new_root: Seq<char>, below: Seq<char>)
    requires
        new_root.len() > 0,
        new_root[new_root.len() - 1] != '/',
    ensures
        rebased(old_root + seq!['/'] + below, old_root, new_root) == Some(
            new_root + seq!['/'] + below,
        ),
{
    let path = old_root + seq!['/'] + below;
    assert(path.take(old_root.len() as int) =~= old_root);
    assert(path[old_root.len() as int] == '/');
    assert(path.skip(old_root.len() as int) =~= seq!['/'] + below);
    assert(new_root.last() != '/');
    assert(text::trimmed_end(new_root, '/') == new_root);
    assert(new_root + (seq!['/'] + below) =~= new_root + seq!['/'] + below);
}

/// A path that does not start with the root is not moved.
pub proof fn what_is_elsewhere_stays(path: Seq<char>, old_root: Seq<char>, new_root: Seq<char>)
    requires
        rebased(path, old_root, new_root) is Some,
    ensures
        old_root.len() <= path.len(),
        forall|i: int| 0 <= i < old_root.len() ==> #[trigger] path[i] == old_root[i],
        path.len() > old_root.len() ==> path[old_root.len() as int] == '/',
{
    assert forall|i: int| 0 <= i < old_root.len() implies #[trigger] path[i] == old_root[i] by {
        assert(path.take(old_root.len() as int)[i] == path[i]);
    }
}

/// The triple that a platform token stands for.
pub open spec fn stands_for(token: Seq<char>, host: Seq<char>) -> Seq<char> {
    if token == "host"@ {
        host
    } else {
        token
    }
}

proof fn stops_are_first(tokens: Seq<Seq<char>>, host: Seq<char>, upto: int)
    requires
        0 <= upto <= tokens.len(),
    ensures
        match first_stop(tokens, host, upto) {
            Some(i) => 0 <= i < upto && (tokens[i] == "all"@ || !known_target(
                stands_for(tokens[i], host),
            )) && forall|j: int|
                0 <= j < i ==> #[trigger] tokens[j] != "all"@ && known_target(
                    stands_for(tokens[j], host),
                ),
            None => forall|j: int|
                0 <= j < upto ==> #[trigger] tokens[j] != "all"@ && known_target(
                    stands_for(tokens[j], host),
                ),
        },
    decreases upto,
{
    if upto > 0 {
        stops_are_first(tokens, host, upto - 1);
    }
}

proof fn triples_are_those(tokens: Seq<Seq<char>>, host: Seq<char>, upto: int, triple: Seq<char>)
    requires
        0 <= upto <= tokens.len(),
    ensures
        distinct_triples(tokens, host, upto).contains(triple) <==> exists|i: int|
            0 <= i < upto && stands_for(#[trigger] tokens[i], host) == triple,
    decreases upto,
{
    if upto > 0 {
        triples_are_those(tokens, host, upto - 1, triple);
        pushed_is_held(
            distinct_triples(tokens, host, upto - 1),
            triple_of(tokens[upto - 1], host),
            triple,
        );
    }
}

/// A platform selection is what its tokens stand for: every platform when `all` comes before
/// anything unknown, the first unknown token as an error, and otherwise the triples that are
/// named, `host` being that of the machine.
pub proof fn platforms_are_as_written(tokens: Seq<Seq<char>>, host: Seq<char>)
    ensures
        match resolved(tokens, host) {
            Ok(triples) => {
                ||| triples.len() == 0 && exists|i: int|
                    0 <= i < tokens.len() && #[trigger] tokens[i] == "all"@ && forall|j: int|
                        0 <= j < i ==> known_target(stands_for(#[trigger] tokens[j], host))
                ||| {
                    &&& forall|i: int|
                        0 <= i < tokens.len() ==> #[trigger] tokens[i] != "all"@ && known_target(
                            stands_for(tokens[i], host),
                        )
                    &&& forall|triple: Seq<char>| #[trigger]
                        triples.contains(triple) <==> exists|i: int|
                            0 <= i < tokens.len() && stands_for(#[trigger] tokens[i], host)
                                == triple
                }
            },
            Err(i) => 0 <= i < tokens.len() && tokens[i] != "all"@ && !known_target(
                stands_for(tokens[i], host),
            ) && forall|j: int|
                0 <= j < i ==> #[trigger] tokens[j] != "all"@ && known_target(
                    stands_for(tokens[j], host),
                ),
        },
{
    let count = tokens.len() as int;
    stops_are_first(tokens, host, count);
    if first_stop(tokens, host, count) is None {
        let triples = distinct_triples(tokens, host, count);
        assert forall|triple: Seq<char>| #[trigger] triples.contains(triple) <==> exists|i: int|
            0 <= i < count && stands_for(#[trigger] tokens[i], host) == triple by {
            triples_are_those(tokens, host, count, triple);
        }
    } else {
        let i = first_stop(tokens, host, count)->0;
        assert(tokens[i] == tokens[i]);
    }
}

} // verus!
