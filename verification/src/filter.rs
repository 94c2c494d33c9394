//! Which relative paths the `includes` / `exclude` globs let through (the `globset` crate
//! does the matching).

use globset::{Glob, GlobSet, GlobSetBuilder};
use vstd::prelude::*;

use crate::entry::Options;

verus! {

#[verifier::external_type_specification]
#[verifier::external_body]
pub struct ExGlob(globset::Glob);

#[verifier::external_type_specification]
#[verifier::external_body]
pub struct ExGlobSet(globset::GlobSet);

#[verifier::external_type_specification]
#[verifier::external_body]
pub struct ExGlobSetBuilder(globset::GlobSetBuilder);

#[verifier::external_type_specification]
#[verifier::external_body]
pub struct ExGlobError(globset::Error);

/// Whether `globset::Glob::new` accepts this pattern.
pub uninterp spec fn glob_parses(pattern: Seq<char>) -> bool;

/// The pattern a `globset::Glob` was made from (what `Glob::glob` returns).
pub uninterp spec fn glob_text(g: Glob) -> Seq<char>;

/// The patterns added to a `globset::GlobSetBuilder`, in order.
pub uninterp spec fn builder_patterns(b: GlobSetBuilder) -> Seq<Seq<char>>;

/// The patterns a `globset::GlobSet` was built from, in order.
pub uninterp spec fn set_patterns(s: GlobSet) -> Seq<Seq<char>>;

/// Whether `GlobSetBuilder::build` compiles these patterns into one matcher (it refuses
/// patterns whose compiled form is over its size limit).
pub uninterp spec fn globset_builds(patterns: Seq<Seq<char>>) -> bool;

/// Whether glob `pattern`, with `globset`'s default options (so `*` also spans `/`),
/// matches `path`.
pub uninterp spec fn glob_matches(pattern: Seq<char>, path: Seq<char>) -> bool;

/// `globset::Glob::new`: parses a pattern; it fails exactly when `glob_parses` says so, and
/// the glob remembers the pattern it was made from.
#[verifier::external_body]
fn new_glob(pattern: &str) -> (r: Result<Glob, globset::Error>)
    ensures
        r is Ok <==> glob_parses(pattern@),
        r matches Ok(g) ==> glob_text(g) == pattern@,
{
    Glob::new(pattern)
}

/// `globset::GlobSetBuilder::new`: a builder holding no pattern.
#[verifier::external_body]
fn new_builder() -> (b: GlobSetBuilder)
    ensures
        builder_patterns(b) == Seq::<Seq<char>>::empty(),
{
    GlobSetBuilder::new()
}

/// `globset::GlobSetBuilder::add`: appends a glob to the builder's patterns.
#[verifier::external_body]
fn builder_add(b: &mut GlobSetBuilder, g: Glob)
    ensures
        builder_patterns(*final(b)) == builder_patterns(*old(b)).push(glob_text(g)),
{
    b.add(g);
}

/// `globset::GlobSetBuilder::build`: compiles the builder's patterns into a set, which
/// holds those patterns; it fails exactly when `globset_builds` says so.
#[verifier::external_body]
fn builder_build(b: &GlobSetBuilder) -> (r: Result<GlobSet, globset::Error>)
    ensures
        r is Ok <==> globset_builds(builder_patterns(*b)),
        r matches Ok(s) ==> set_patterns(s) == builder_patterns(*b),
{
    b.build()
}

/// `globset::GlobSet::is_match`: whether any glob of the set matches the path.
#[verifier::external_body]
fn set_is_match(s: &GlobSet, path: &str) -> (r: bool)
    ensures
        r == (exists|i: int| 0 <= i < set_patterns(*s).len() && glob_matches(set_patterns(*s)[i], path@)),
{
    s.is_match(path)
}

/// The `Display` text of a `globset` error.
#[verifier::external_body]
fn glob_error_text(e: &globset::Error) -> String {
    e.to_string()
}

/// Patterns as character sequences.
pub open spec fn patterns_view(ps: Seq<String>) -> Seq<Seq<char>> {
    ps.map_values(|p: String| p@)
}

/// Whether some pattern matches the path.
pub open spec fn matches_any(patterns: Seq<Seq<char>>, path: Seq<char>) -> bool {
    exists|i: int| 0 <= i < patterns.len() && #[trigger] glob_matches(patterns[i], path)
}

/// Whether every pattern of `ps[..n]` parses.
pub open spec fn all_parse(ps: Seq<Seq<char>>, n: int) -> bool {
    forall|i: int| 0 <= i < n ==> #[trigger] glob_parses(ps[i])
}

/// Why the patterns could not be compiled.
#[derive(Debug, Clone, PartialEq, Eq)]
pub enum FilterError {
    /// A pattern that is not a valid glob, and what the glob parser said of it.
    InvalidGlob { pattern: String, reason: String },
    /// The patterns parse, but could not be compiled into one matcher.
    Build { reason: String },
}

/// What compiling `ps` gives: nothing for no pattern; else the first pattern that does not
/// parse is refused; else the whole set builds or is refused.
pub open spec fn compiled_ok(ps: Seq<Seq<char>>) -> bool {
    ps.len() == 0 || (all_parse(ps, ps.len() as int) && globset_builds(ps))
}

/// Whether `e` is the error that compiling `ps` ends in: the first pattern that does not
/// parse, or else the failure to build the set.
pub open spec fn refusal(ps: Seq<Seq<char>>, e: FilterError) -> bool {
    match e {
        FilterError::InvalidGlob { pattern, reason } => exists|i: int|
            0 <= i < ps.len() && all_parse(ps, i) && !glob_parses(ps[i]) && #[trigger] ps[i] == pattern@,
        FilterError::Build { reason } => ps.len() > 0 && all_parse(ps, ps.len() as int) && !globset_builds(ps),
    }
}

/// Compile patterns into one matcher (`None` when there is no pattern).
fn build_globset(patterns: &Vec<String>) -> (r: Result<Option<GlobSet>, FilterError>)
    ensures
        r is Ok <==> compiled_ok(patterns_view(patterns@)),
        r matches Ok(o) ==> (patterns@.len() == 0 <==> o is None),
        r matches Ok(Some(s)) ==> set_patterns(s) == patterns_view(patterns@),
        r matches Err(e) ==> refusal(patterns_view(patterns@), e),
{
    let ghost ps = patterns_view(patterns@);
    if patterns.len() == 0 {
        return Ok(None);
    }
    let mut builder = new_builder();
    let mut i: usize = 0;
    while i < patterns.len()
        invariant
            i <= patterns@.len(),
            ps == patterns_view(patterns@),
            all_parse(ps, i as int),
            builder_patterns(builder) == ps.take(i as int),
        decreases patterns@.len() - i,
    {
        match new_glob(patterns[i].as_str()) {
            Ok(g) => {
                builder_add(&mut builder, g);
                i = i + 1;
                assert(ps.take(i as int) =~= ps.take(i - 1).push(ps[i - 1]));
            },
            Err(e) => {
                assert(!glob_parses(ps[i as int]));
                let pattern = patterns[i].clone();
                assert(pattern@ == ps[i as int]);
                return Err(FilterError::InvalidGlob { pattern, reason: glob_error_text(&e) });
            },
        }
    }
    assert(ps.take(i as int) =~= ps);
    match builder_build(&builder) {
        Ok(s) => Ok(Some(s)),
        Err(e) => Err(FilterError::Build { reason: glob_error_text(&e) }),
    }
}

/// The `includes` / `exclude` globs, compiled.
pub struct PathFilter {
    include_set: Option<GlobSet>,
    exclude_set: Option<GlobSet>,
}

impl PathFilter {
    /// A compiled set is only held for a non-empty list of patterns.
    #[verifier::type_invariant]
    spec fn sets_hold_patterns(self) -> bool {
        &&& (self.include_set matches Some(s) ==> set_patterns(s).len() > 0)
        &&& (self.exclude_set matches Some(s) ==> set_patterns(s).len() > 0)
    }

    /// The include patterns the filter holds.
    pub closed spec fn included(self) -> Seq<Seq<char>> {
        match self.include_set {
            Some(s) => set_patterns(s),
            None => Seq::empty(),
        }
    }

    /// The exclude patterns the filter holds.
    pub closed spec fn excluded(self) -> Seq<Seq<char>> {
        match self.exclude_set {
            Some(s) => set_patterns(s),
            None => Seq::empty(),
        }
    }

    /// Whether a file at `path` is kept: a non-empty path that some include pattern
    /// matches (every path when there is none) and no exclude pattern matches.
    pub open spec fn keeps(self, path: Seq<char>) -> bool {
        &&& path.len() > 0
        &&& (self.included().len() == 0 || matches_any(self.included(), path))
        &&& !matches_any(self.excluded(), path)
    }

    /// Without patterns every file is kept; an exclude pattern that matches always drops the
    /// file, whatever the include patterns say.
    pub proof fn law_excludes_win(self, path: Seq<char>)
        ensures
            self.included().len() == 0 && self.excluded().len() == 0 && path.len() > 0 ==> self.keeps(path),
            matches_any(self.excluded(), path) ==> !self.keeps(path),
    {
    }

    /// Include patterns, when there are any, select: a path that none of them matches is
    /// dropped whatever the exclude patterns say, and one that some include pattern matches
    /// is kept unless an exclude pattern matches it. With no include pattern, every non-empty
    /// path that no exclude pattern matches is kept.
    pub proof fn law_includes_select(self, path: Seq<char>)
        ensures
            self.included().len() > 0 && !matches_any(self.included(), path) ==> !self.keeps(path),
            self.included().len() > 0 && matches_any(self.included(), path) && !matches_any(self.excluded(), path)
                && path.len() > 0 ==> self.keeps(path),
            self.included().len() == 0 && !matches_any(self.excluded(), path) && path.len() > 0 ==> self.keeps(path),
            path.len() == 0 ==> !self.keeps(path),
    {
    }

    /// Compile the options' include and exclude globs; the include globs are compiled first,
    /// so their errors come first.
    pub fn new(opts: &Options) -> (r: Result<PathFilter, FilterError>)
        ensures
            r is Ok <==> compiled_ok(patterns_view(opts.includes@)) && compiled_ok(
                patterns_view(opts.exclude@),
            ),
            r matches Ok(f) ==> f.included() == patterns_view(opts.includes@) && f.excluded()
                == patterns_view(opts.exclude@),
            r matches Err(e) ==> if compiled_ok(patterns_view(opts.includes@)) {
                refusal(patterns_view(opts.exclude@), e)
            } else {
                refusal(patterns_view(opts.includes@), e)
            },
    {
        let include_set = match build_globset(&opts.includes) {
            Ok(s) => s,
            Err(e) => {
                return Err(e);
            },
        };
        let exclude_set = match build_globset(&opts.exclude) {
            Ok(s) => s,
            Err(e) => {
                return Err(e);
            },
        };
        assert(include_set matches Some(s) ==> set_patterns(s).len() == opts.includes@.len());
        assert(exclude_set matches Some(s) ==> set_patterns(s).len() == opts.exclude@.len());
        assert(opts.includes@.len() == 0 ==> patterns_view(opts.includes@) =~= Seq::<Seq<char>>::empty());
        assert(opts.exclude@.len() == 0 ==> patterns_view(opts.exclude@) =~= Seq::<Seq<char>>::empty());
        Ok(PathFilter { include_set, exclude_set })
    }

    /// Whether a file at `path` is kept.
    pub fn admits(&self, path: &str) -> (r: bool)
        ensures
            r == self.keeps(path@),
    {
        proof {
            use_type_invariant(self);
        }
        if path.is_empty() {
            return false;
        }
        let included = match &self.include_set {
            Some(s) => set_is_match(s, path),
            None => true,
        };
        let excluded = match &self.exclude_set {
            Some(s) => set_is_match(s, path),
            None => false,
        };
        assert(included == (self.included().len() == 0 || matches_any(self.included(), path@)));
        assert(excluded == matches_any(self.excluded(), path@));
        included && !excluded
    }
}

} // verus!
