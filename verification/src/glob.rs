//! Trusted interface to `globset`, which matches node ids and labels against
//! glob patterns.  Verus sees a builder or a compiled set only through the
//! patterns it was given (`builder_patterns`, `globset_patterns`); whether
//! a pattern is accepted and what it matches are named, not restated.
use globset::{Glob, GlobSet, GlobSetBuilder};
use vstd::prelude::*;

verus! {

#[verifier::external_type_specification]
#[verifier::external_body]
pub struct ExGlobSetBuilder(GlobSetBuilder);

#[verifier::external_type_specification]
#[verifier::external_body]
pub struct ExGlobSet(GlobSet);

#[verifier::external_type_specification]
#[verifier::external_body]
pub struct ExGlobError(globset::Error);

/// Whether `Glob::new` accepts `pattern`.
pub uninterp spec fn glob_parses(pattern: Seq<char>) -> bool;

/// Whether the glob `pattern`, built with default options, matches `text`.
pub uninterp spec fn glob_matches(pattern: Seq<char>, text: Seq<char>) -> bool;

/// The patterns added to a builder, in order.
pub uninterp spec fn builder_patterns(b: GlobSetBuilder) -> Seq<Seq<char>>;

/// Whether `GlobSetBuilder::build` succeeds for these patterns (each a valid
/// glob); the source decides it from the patterns alone.
pub uninterp spec fn globset_builds(pats: Seq<Seq<char>>) -> bool;

/// The patterns a compiled set was built from, in order.
pub uninterp spec fn globset_patterns(s: GlobSet) -> Seq<Seq<char>>;

/// Whether some pattern of `pats` matches `text`.
pub open spec fn any_matches(pats: Seq<Seq<char>>, text: Seq<char>) -> bool {
    exists|i: int| 0 <= i < pats.len() && glob_matches(#[trigger] pats[i], text)
}

/// How many patterns of `pats` match `text`.
pub open spec fn count_matches(pats: Seq<Seq<char>>, text: Seq<char>) -> nat
    decreases pats.len(),
{
    if pats.len() == 0 {
        0
    } else {
        count_matches(pats.drop_last(), text) + (if glob_matches(pats.last(), text) {
            1nat
        } else {
            0nat
        })
    }
}

/// `GlobSetBuilder::new`: a builder with no patterns.
#[verifier::external_body]
pub fn builder_new() -> (b: GlobSetBuilder)
    ensures
        builder_patterns(b) == Seq::<Seq<char>>::empty(),
{
    GlobSetBuilder::new()
}

/// `Glob::new`, then `GlobSetBuilder::add` when the pattern is accepted; a
/// rejected pattern leaves the builder as it was and gives `Glob::new`'s error.
#[verifier::external_body]
pub fn builder_add(b: &mut GlobSetBuilder, pattern: &str) -> (r: Result<(), globset::Error>)
    ensures
        r is Ok == glob_parses(pattern@),
        r is Ok ==> builder_patterns(*final(b)) == builder_patterns(*old(b)).push(pattern@),
        r is Err ==> builder_patterns(*final(b)) == builder_patterns(*old(b)),
{
    match Glob::new(pattern) {
        Ok(g) => {
            b.add(g);
            Ok(())
        },
        Err(e) => Err(e),
    }
}

/// `GlobSetBuilder::build`: the compiled set holds the builder's patterns.
/// Whether it succeeds is named by `globset_builds` of the patterns; a
/// builder without patterns always builds (`GlobSet::new` returns the empty
/// set at once). When else building fails (the combined matcher would be too
/// large) is not written out.
#[verifier::external_body]
pub fn builder_build(b: &GlobSetBuilder) -> (r: Result<GlobSet, globset::Error>)
    ensures
        r matches Ok(s) ==> globset_patterns(s) == builder_patterns(*b),
        r is Ok == globset_builds(builder_patterns(*b)),
        builder_patterns(*b).len() == 0 ==> r is Ok,
{
    b.build()
}

/// `GlobSet::is_match`: whether any pattern of the set matches `text`.
#[verifier::external_body]
pub fn set_is_match(s: &GlobSet, text: &str) -> (b: bool)
    ensures
        b == (exists|i: int| 0 <= i < globset_patterns(*s).len() && glob_matches(#[trigger] globset_patterns(*s)[i], text@)),
{
    s.is_match(text)
}

/// `GlobSet::matches`, counted: the set lists each matching pattern's
/// sequence number once.
#[verifier::external_body]
pub fn set_match_count(s: &GlobSet, text: &str) -> (n: usize)
    ensures
        n == count_matches(globset_patterns(*s), text@),
{
    s.matches(text).len()
}

} // verus!
