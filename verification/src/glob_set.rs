//! Compiled globs, each value carrying the patterns it was made from; only the
//! wrappers around globset below make or change one.
use vstd::prelude::*;

verus! {

#[verifier::external_type_specification]
#[verifier::external_body]
pub struct ExGlob(globset::Glob);

#[verifier::external_type_specification]
#[verifier::external_body]
pub struct ExGlobSet(globset::GlobSet);

#[verifier::external_type_specification]
#[verifier::external_body]
pub struct ExGlobSetBuilder(globset::GlobSetBuilder);

#[verifier::external_type_specification]
#[verifier::external_body]
pub struct ExGlobError(globset::Error);

/// Whether `globset::Glob::new` accepts `pattern`.
pub uninterp spec fn glob_parses(pattern: Seq<char>) -> bool;

/// Whether `globset::GlobSetBuilder::build` succeeds on a builder given `globs`, in
/// that order.
pub uninterp spec fn set_builds(globs: Seq<Seq<char>>) -> bool;

/// Whether the set built from `globs` matches `path` (`globset::GlobSet::is_match`).
pub uninterp spec fn globs_match(globs: Seq<Seq<char>>, path: Seq<char>) -> bool;

/// A compiled glob and its pattern.
pub struct CompiledGlob {
    glob: globset::Glob,
    pattern: Ghost<Seq<char>>,
}

impl View for CompiledGlob {
    type V = Seq<char>;

    closed spec fn view(&self) -> Seq<char> {
        self.pattern@
    }
}

/// A set builder and the patterns of the globs added to it, in order.
pub struct SetBuilder {
    builder: globset::GlobSetBuilder,
    globs: Ghost<Seq<Seq<char>>>,
}

impl View for SetBuilder {
    type V = Seq<Seq<char>>;

    closed spec fn view(&self) -> Seq<Seq<char>> {
        self.globs@
    }
}

/// A compiled set of exclude globs and the patterns it was built from.
pub struct Excludes {
    set: globset::GlobSet,
    patterns: Ghost<Seq<Seq<char>>>,
}

impl View for Excludes {
    type V = Seq<Seq<char>>;

    closed spec fn view(&self) -> Seq<Seq<char>> {
        self.patterns@
    }
}

/// `globset::Glob::new`; it succeeds exactly on the patterns `glob_parses` names,
/// and the glob carries its pattern.
#[verifier::external_body]
pub(crate) fn new_glob(pattern: &str) -> (r: Result<CompiledGlob, globset::Error>)
    ensures
        r is Ok == glob_parses(pattern@),
        r matches Ok(g) ==> g@ == pattern@,
{
    match globset::Glob::new(pattern) {
        Ok(glob) => Ok(CompiledGlob { glob, pattern: Ghost(pattern@) }),
        Err(e) => Err(e),
    }
}

/// `globset::GlobSetBuilder::new`: a builder with no globs.
#[verifier::external_body]
pub(crate) fn new_builder() -> (r: SetBuilder)
    ensures
        r@ == Seq::<Seq<char>>::empty(),
{
    SetBuilder { builder: globset::GlobSetBuilder::new(), globs: Ghost(Seq::empty()) }
}

/// `globset::GlobSetBuilder::add`: the glob joins the builder's globs, last.
#[verifier::external_body]
pub(crate) fn add_glob(b: &mut SetBuilder, g: CompiledGlob)
    ensures
        final(b)@ == old(b)@.push(g@),
{
    b.builder.add(g.glob);
    b.globs = Ghost(b.globs@.push(g.pattern@));
}

/// `globset::GlobSetBuilder::build`; it succeeds as `set_builds` names it, and the
/// set holds the builder's globs.
#[verifier::external_body]
pub(crate) fn build_set(b: &SetBuilder) -> (r: Result<Excludes, globset::Error>)
    ensures
        r is Ok == set_builds(b@),
        r matches Ok(e) ==> e@ == b@,
{
    match b.builder.build() {
        Ok(set) => Ok(Excludes { set, patterns: b.globs }),
        Err(e) => Err(e),
    }
}

/// The message of a `globset::Error`, as its `Display` writes it.
#[verifier::external_body]
pub(crate) fn error_message(e: &globset::Error) -> String {
    e.to_string()
}

/// `globset::GlobSet::is_match` on a path.
#[verifier::external_body]
fn is_excluded(e: &Excludes, path: &str) -> (r: bool)
    ensures
        r == globs_match(e@, path@),
{
    e.set.is_match(path)
}

impl Excludes {
    /// Whether any of the compiled globs matches `path`.
    pub fn is_match(&self, path: &str) -> (r: bool)
        ensures
            r == globs_match(self@, path@),
    {
        is_excluded(self, path)
    }
}

} // verus!
