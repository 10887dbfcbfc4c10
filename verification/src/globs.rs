//! What the `globset` crate does, over the patterns that its values were made from.

use globset::{Glob, GlobSet, GlobSetBuilder};
use vstd::prelude::*;

verus! {

/// A parsed glob of the `globset` crate.
#[verifier::external_type_specification]
#[verifier::external_body]
pub struct ExGlob(Glob);

/// A set of globs of the `globset` crate.
#[verifier::external_type_specification]
#[verifier::external_body]
pub struct ExGlobSet(GlobSet);

/// A set of globs of the `globset` crate that is being gathered.
#[verifier::external_type_specification]
#[verifier::external_body]
pub struct ExGlobSetBuilder(GlobSetBuilder);

/// The pattern of a glob, as it was written.
pub uninterp spec fn pattern(glob: Glob) -> Seq<char>;

/// The patterns of a set, in the order they were added.
pub uninterp spec fn patterns(set: GlobSet) -> Seq<Seq<char>>;

/// The patterns that were added so far, in that order.
pub uninterp spec fn gathered(builder: GlobSetBuilder) -> Seq<Seq<char>>;

/// What is wrong with the syntax of a pattern, in the crate's words.
pub uninterp spec fn pattern_fault(pattern: Seq<char>) -> Option<Seq<char>>;

/// Why patterns cannot be compiled together, in the crate's words.
pub uninterp spec fn set_fault(patterns: Seq<Seq<char>>) -> Option<Seq<char>>;

/// Whether a pattern matches a name.
pub uninterp spec fn glob_matches(pattern: Seq<char>, name: Seq<char>) -> bool;

/// Whether one of `patterns` matches `name`.
pub open spec fn any_matches(patterns: Seq<Seq<char>>, name: Seq<char>) -> bool {
    exists|i: int| 0 <= i < patterns.len() && glob_matches(#[trigger] patterns[i], name)
}

/// `Glob::new`: parses `text` with the default options. Whether that succeeds, and what the
/// error says, depends on the text alone.
#[verifier::external_body]
pub(crate) fn parse(text: &str) -> (glob: Result<Glob, String>)
    ensures
        match glob {
            Ok(glob) => pattern_fault(text@) is None && pattern(glob) == text@,
            Err(fault) => pattern_fault(text@) == Some(fault@),
        },
{
    Glob::new(text).map_err(|error| error.to_string())
}

/// `GlobSetBuilder::new`: a builder without patterns.
#[verifier::external_body]
pub(crate) fn builder() -> (builder: GlobSetBuilder)
    ensures
        (gathered(builder) == Seq::<Seq<char>>::empty()),
{
    GlobSetBuilder::new()
}

/// `GlobSetBuilder::add`: one more pattern.
#[verifier::external_body]
pub(crate) fn gather(builder: &mut GlobSetBuilder, glob: Glob)
    ensures
        gathered(*final(builder)) == gathered(*old(builder)).push(pattern(glob)),
{
    builder.add(glob);
}

/// `GlobSetBuilder::build`: compiles the patterns. Whether that succeeds, and what the error
/// says, depends on the patterns alone; no patterns at all always make a set.
#[verifier::external_body]
pub(crate) fn build(builder: &GlobSetBuilder) -> (set: Result<GlobSet, String>)
    ensures
        match set {
            Ok(set) => set_fault(gathered(*builder)) is None && patterns(set) == gathered(*builder),
            Err(fault) => set_fault(gathered(*builder)) == Some(fault@),
        },
        gathered(*builder).len() == 0 ==> set is Ok,
{
    builder.build().map_err(|error| error.to_string())
}

/// `GlobSet::is_match`: whether any pattern of the set matches `name`.
#[verifier::external_body]
pub(crate) fn is_match(set: &GlobSet, name: &str) -> (found: bool)
    ensures
        found == (exists|i: int|
            0 <= i < patterns(*set).len() && glob_matches(#[trigger] patterns(*set)[i], name@)),
{
    set.is_match(name)
}

} // verus!
