//! Which keys take part: glob patterns to take in and to leave out.
use vstd::prelude::*;
use vstd::string::*;

use globset::{Glob, GlobSet, GlobSetBuilder};

verus! {

/// A set of compiled globs of the `globset` crate.
#[verifier::external_type_specification]
#[verifier::external_body]
pub struct ExGlobSet(globset::GlobSet);

/// A growing list of globs of the `globset` crate.
#[verifier::external_type_specification]
#[verifier::external_body]
pub struct ExGlobSetBuilder(globset::GlobSetBuilder);

/// The reason for which the `globset` crate refuses a glob or a set of globs.
#[verifier::external_type_specification]
#[verifier::external_body]
pub struct ExGlobError(globset::Error);

/// Whether `globset::Glob::new` accepts the pattern, on Unix, where a slash alone parts a path.
pub uninterp spec fn glob_parses(pattern: Seq<char>) -> bool;

/// Whether the glob with this pattern matches the path, on Unix.
pub uninterp spec fn glob_matches(pattern: Seq<char>, path: Seq<char>) -> bool;

/// The patterns added to a builder, in order.
pub uninterp spec fn added_globs(builder: GlobSetBuilder) -> Seq<Seq<char>>;

/// The patterns that a set was built from, in order.
pub uninterp spec fn built_globs(set: GlobSet) -> Seq<Seq<char>>;

/// Whether some of the patterns matches the path.
pub open spec fn any_matches(patterns: Seq<Seq<char>>, path: Seq<char>) -> bool {
    exists|i: int| 0 <= i < patterns.len() && glob_matches(#[trigger] patterns[i], path)
}

/// `globset::GlobSetBuilder::new`: a builder without patterns.
#[verifier::external_body]
fn new_builder() -> (builder: GlobSetBuilder)
    ensures
        added_globs(builder) == Seq::<Seq<char>>::empty(),
{
    GlobSetBuilder::new()
}

/// `globset::GlobSetBuilder::add`, of the glob that `globset::Glob::new` makes of the pattern.
///
/// On Unix, whether the pattern is accepted depends on its text alone. If it is, it comes last in the
/// builder; if not, the builder stays as it is.
#[verifier::external_body]
fn add_glob(builder: &mut GlobSetBuilder, pattern: &str) -> (added: Result<(), globset::Error>)
    ensures
        added is Ok <==> glob_parses(pattern@),
        added is Ok ==> added_globs(*final(builder)) == added_globs(*old(builder)).push(pattern@),
        added is Err ==> added_globs(*final(builder)) == added_globs(*old(builder)),
{
    builder.add(Glob::new(pattern)?);
    Ok(())
}

/// `globset::GlobSetBuilder::build`.
///
/// A set that is built holds all the patterns, and without patterns there is always one. When
/// there is none for other patterns is left unsaid: the memory that a set may take is limited,
/// and how much it takes differs between machines.
#[verifier::external_body]
fn build_globs(builder: &GlobSetBuilder) -> (built: Result<GlobSet, globset::Error>)
    ensures
        built matches Ok(set) ==> built_globs(set) == added_globs(*builder),
        added_globs(*builder).len() == 0 ==> built is Ok,
{
    builder.build()
}

/// `globset::GlobSet::is_match`: whether any glob in the set matches.
///
/// On Unix, whether one glob matches depends on its pattern and the path alone.
#[verifier::external_body]
fn set_matches(set: &GlobSet, path: &str) -> (yes: bool)
    ensures
        yes == (exists|i: int|
            0 <= i < built_globs(*set).len() && glob_matches(
                #[trigger] built_globs(*set)[i],
                path@,
            )),
{
    set.is_match(path)
}

/// The texts of a list of patterns.
pub open spec fn texts(list: Seq<String>) -> Seq<Seq<char>> {
    Seq::new(list.len(), |i: int| list[i]@)
}

/// The patterns by which keys are included: the given ones, or all keys where none is given.
pub open spec fn effective_include(includes: Seq<Seq<char>>) -> Seq<Seq<char>> {
    if includes.len() == 0 {
        seq!["**/*"@]
    } else {
        includes
    }
}

/// The first pattern that is no glob.
pub open spec fn first_bad(patterns: Seq<Seq<char>>) -> Option<Seq<char>>
    decreases patterns.len(),
{
    if patterns.len() == 0 {
        None
    } else if !glob_parses(patterns.first()) {
        Some(patterns.first())
    } else {
        first_bad(patterns.drop_first())
    }
}

/// Why no filter could be made.
pub enum FilterError {
    /// A pattern is no glob.
    Pattern { pattern: String, cause: globset::Error },
    /// The patterns that take keys in do not compile into one set.
    Include { cause: globset::Error },
    /// The patterns that leave keys out do not compile into one set.
    Exclude { cause: globset::Error },
}

/// What a [`FilterError`] says, without the reason that globset gives, which is handed on as it
/// comes.
pub enum FilterFault {
    Pattern(Seq<char>),
    Include,
    Exclude,
}

impl View for FilterError {
    type V = FilterFault;

    open spec fn view(&self) -> FilterFault {
        match self {
            FilterError::Pattern { pattern, .. } => FilterFault::Pattern(pattern@),
            FilterError::Include { .. } => FilterFault::Include,
            FilterError::Exclude { .. } => FilterFault::Exclude,
        }
    }
}

/// The first pattern that is no glob, of those that take keys in and those that leave keys out.
pub open spec fn bad_pattern(
    includes: Seq<Seq<char>>,
    excludes: Seq<Seq<char>>,
) -> Option<Seq<char>> {
    if first_bad(effective_include(includes)) is Some {
        first_bad(effective_include(includes))
    } else {
        first_bad(excludes)
    }
}

/// Which keys take part.
pub struct Filter {
    includes: GlobSet,
    excludes: GlobSet,
}

/// The patterns of a [`Filter`].
#[verifier::ext_equal]
pub struct Patterns {
    pub includes: Seq<Seq<char>>,
    pub excludes: Seq<Seq<char>>,
}

impl Patterns {
    /// Whether `key` takes part: some pattern includes it and none excludes it.
    pub open spec fn select(self, key: Seq<char>) -> bool {
        any_matches(self.includes, key) && !any_matches(self.excludes, key)
    }
}

impl View for Filter {
    type V = Patterns;

    closed spec fn view(&self) -> Patterns {
        Patterns { includes: built_globs(self.includes), excludes: built_globs(self.excludes) }
    }
}

/// A builder that holds these patterns, or the first that is no glob.
fn collect_globs(patterns: &[String]) -> (collected: Result<GlobSetBuilder, FilterError>)
    ensures
        collected is Ok <==> first_bad(texts(patterns@)) is None,
        collected matches Ok(builder) ==> added_globs(builder) == texts(patterns@),
        collected matches Err(e) ==> e@ == FilterFault::Pattern(first_bad(texts(patterns@))->0),
{
    let mut builder = new_builder();
    let ghost all = texts(patterns@);
    let mut i: usize = 0;
    proof {
        assert(all.skip(0) =~= all);
        assert(all.take(0) =~= Seq::<Seq<char>>::empty());
    }
    while i < patterns.len()
        invariant
            i <= patterns@.len(),
            all == texts(patterns@),
            added_globs(builder) == all.take(i as int),
            first_bad(all) == first_bad(all.skip(i as int)),
        decreases patterns@.len() - i,
    {
        proof {
            assert(all.skip(i as int).first() == patterns@[i as int]@);
            assert(all.skip(i as int).drop_first() =~= all.skip(i + 1));
            assert(all.take(i + 1) =~= all.take(i as int).push(patterns@[i as int]@));
        }
        match add_glob(&mut builder, patterns[i].as_str()) {
            Ok(_) => {},
            Err(cause) => {
                return Err(FilterError::Pattern { pattern: patterns[i].clone(), cause });
            },
        }
        i = i + 1;
    }
    proof {
        assert(all.take(i as int) =~= all);
    }
    Ok(builder)
}

impl Filter {
    /// A filter that lets the keys through which some pattern of `includes` matches and none of
    /// `excludes`. Without a pattern in `includes`, every key is included.
    ///
    /// There is none if some pattern is no glob. If all are, there can only be none because
    /// they are too many or too long to be compiled.
    pub fn new(includes: &[String], excludes: &[String]) -> (made: Result<Filter, FilterError>)
        ensures
            match bad_pattern(texts(includes@), texts(excludes@)) {
                Some(pattern) => made matches Err(e) && e@ == FilterFault::Pattern(pattern),
                None => match made {
                    Ok(filter) => filter@ == (Patterns {
                        includes: effective_include(texts(includes@)),
                        excludes: texts(excludes@),
                    }),
                    Err(e) => e@ is Include || (e@ is Exclude && excludes@.len() > 0),
                },
            },
    {
        let everything: [String; 1] = ["**/*".to_owned()];
        let included = if includes.len() == 0 {
            collect_globs(&everything)
        } else {
            collect_globs(includes)
        };
        proof {
            if includes@.len() == 0 {
                assert(texts(everything@) =~= effective_include(texts(includes@)));
            }
        }
        let include_builder = match included {
            Ok(builder) => builder,
            Err(e) => {
                return Err(e);
            },
        };
        let exclude_builder = match collect_globs(excludes) {
            Ok(builder) => builder,
            Err(e) => {
                return Err(e);
            },
        };
        Filter::from_sets(build_globs(&include_builder), build_globs(&exclude_builder))
    }

    /// The filter that two compiled sets of patterns make up, if both could be compiled.
    pub fn from_sets(
        includes: Result<GlobSet, globset::Error>,
        excludes: Result<GlobSet, globset::Error>,
    ) -> (made: Result<Filter, FilterError>)
        ensures
            match (includes, excludes) {
                (Err(cause), _) => made == Err::<Filter, _>(FilterError::Include { cause }),
                (Ok(_), Err(cause)) => made == Err::<Filter, _>(FilterError::Exclude { cause }),
                (Ok(taken), Ok(left)) => made matches Ok(filter) && filter@ == (Patterns {
                    includes: built_globs(taken),
                    excludes: built_globs(left),
                }),
            },
    {
        match includes {
            Err(cause) => Err(FilterError::Include { cause }),
            Ok(taken) => match excludes {
                Err(cause) => Err(FilterError::Exclude { cause }),
                Ok(left) => Ok(Filter { includes: taken, excludes: left }),
            },
        }
    }

    /// Whether `path` takes part.
    pub fn matches(&self, path: &str) -> (yes: bool)
        ensures
            yes == self@.select(path@),
    {
        let included: bool = set_matches(&self.includes, path);
        let excluded: bool = set_matches(&self.excludes, path);
        included && !excluded
    }
}

/// One pattern more in `excludes` lets through the same keys but those that it matches.
pub proof fn law_exclude_narrows(patterns: Patterns, pattern: Seq<char>, key: Seq<char>)
    ensures
        (Patterns { excludes: patterns.excludes.push(pattern), ..patterns }).select(key) == (
        patterns.select(key) && !glob_matches(pattern, key)),
{
    let more = patterns.excludes.push(pattern);
    if any_matches(patterns.excludes, key) {
        let i = choose|i: int|
            0 <= i < patterns.excludes.len() && glob_matches(#[trigger] patterns.excludes[i], key);
        assert(glob_matches(more[i], key));
    }
    if glob_matches(pattern, key) {
        assert(glob_matches(more[patterns.excludes.len() as int], key));
    }
    if any_matches(more, key) {
        let i = choose|i: int| 0 <= i < more.len() && glob_matches(#[trigger] more[i], key);
        if i < patterns.excludes.len() {
            assert(glob_matches(patterns.excludes[i], key));
        }
    }
}

/// One pattern more in `includes` lets through, besides, the keys that it matches and that nothing
/// excludes.
pub proof fn law_include_widens(patterns: Patterns, pattern: Seq<char>, key: Seq<char>)
    ensures
        (Patterns { includes: patterns.includes.push(pattern), ..patterns }).select(key) == (
        patterns.select(key) || (glob_matches(pattern, key) && !any_matches(
            patterns.excludes,
            key,
        ))),
{
    let more = patterns.includes.push(pattern);
    if any_matches(patterns.includes, key) {
        let i = choose|i: int|
            0 <= i < patterns.includes.len() && glob_matches(#[trigger] patterns.includes[i], key);
        assert(glob_matches(more[i], key));
    }
    if glob_matches(pattern, key) {
        assert(glob_matches(more[patterns.includes.len() as int], key));
    }
    if any_matches(more, key) {
        let i = choose|i: int| 0 <= i < more.len() && glob_matches(#[trigger] more[i], key);
        if i < patterns.includes.len() {
            assert(glob_matches(patterns.includes[i], key));
        }
    }
}

/// A key takes part exactly when some pattern that takes keys in matches it and no pattern that
/// leaves keys out does; so an excluded key takes part under no circumstances.
pub proof fn law_exclusion_prevails(patterns: Patterns, key: Seq<char>, i: int, e: int)
    ensures
        patterns.select(key) <==> (exists|j: int|
            0 <= j < patterns.includes.len() && glob_matches(
                #[trigger] patterns.includes[j],
                key,
            )) && (forall|j: int|
            0 <= j < patterns.excludes.len() ==> !glob_matches(
                #[trigger] patterns.excludes[j],
                key,
            )),
        0 <= e < patterns.excludes.len() && glob_matches(patterns.excludes[e], key)
            ==> !patterns.select(key),
        0 <= i < patterns.includes.len() && glob_matches(patterns.includes[i], key)
            && patterns.excludes.len() == 0 ==> patterns.select(key),
{
    if 0 <= e < patterns.excludes.len() && glob_matches(patterns.excludes[e], key) {
        assert(any_matches(patterns.excludes, key));
    }
    if 0 <= i < patterns.includes.len() && glob_matches(patterns.includes[i], key) {
        assert(any_matches(patterns.includes, key));
    }
}

/// Patterns that take keys in count as they are given; where none is given, one that matches
/// every path does.
pub proof fn law_given_includes_count(includes: Seq<Seq<char>>)
    ensures
        includes.len() > 0 ==> effective_include(includes) == includes,
        includes.len() == 0 ==> effective_include(includes) == seq!["**/*"@],
{
}

/// The pattern that is complained about is no glob, and all before it are; nothing is complained
/// about exactly when all are.
pub proof fn law_first_bad_pattern_is_named(patterns: Seq<Seq<char>>)
    ensures
        match first_bad(patterns) {
            Some(bad) => exists|at: int|
                0 <= at < patterns.len() && #[trigger] patterns[at] == bad && !glob_parses(bad) && (
                forall|i: int| 0 <= i < at ==> glob_parses(#[trigger] patterns[i])),
            None => forall|i: int| 0 <= i < patterns.len() ==> glob_parses(#[trigger] patterns[i]),
        },
    decreases patterns.len(),
{
    if patterns.len() > 0 {
        let rest = patterns.drop_first();
        law_first_bad_pattern_is_named(rest);
        if glob_parses(patterns.first()) {
            match first_bad(rest) {
                Some(bad) => {
                    let at = choose|at: int|
                        0 <= at < rest.len() && #[trigger] rest[at] == bad && !glob_parses(bad) && (
                        forall|i: int| 0 <= i < at ==> glob_parses(#[trigger] rest[i]));
                    assert(patterns[at + 1] == bad);
                    assert forall|i: int| 0 <= i < at + 1 implies glob_parses(
                        #[trigger] patterns[i],
                    ) by {
                        if i > 0 {
                            assert(glob_parses(rest[i - 1]));
                        }
                    }
                },
                None => {
                    assert forall|i: int| 0 <= i < patterns.len() implies glob_parses(
                        #[trigger] patterns[i],
                    ) by {
                        if i > 0 {
                            assert(glob_parses(rest[i - 1]));
                        }
                    }
                },
            }
        } else {
            assert(patterns[0] == patterns.first());
        }
    }
}

/// A filter is refused for a pattern exactly when some pattern that counts is no glob; those that
/// take keys in are looked at first.
pub proof fn law_filter_is_refused_for_bad_patterns(
    includes: Seq<Seq<char>>,
    excludes: Seq<Seq<char>>,
)
    ensures
        includes.len() > 0 ==> (bad_pattern(includes, excludes) is None <==> (forall|i: int|
            0 <= i < includes.len() ==> glob_parses(#[trigger] includes[i])) && (forall|i: int|
            0 <= i < excludes.len() ==> glob_parses(#[trigger] excludes[i]))),
        includes.len() > 0 ==> (bad_pattern(includes, excludes) matches Some(bad) ==> !glob_parses(
            bad,
        ) && (includes.contains(bad) || excludes.contains(bad))),
        (exists|i: int| 0 <= i < includes.len() && !glob_parses(#[trigger] includes[i])) ==> (
        bad_pattern(includes, excludes) matches Some(bad) && includes.contains(bad)),
        bad_pattern(Seq::empty(), excludes) == bad_pattern(seq!["**/*"@], excludes),
{
    law_first_bad_pattern_is_named(includes);
    law_first_bad_pattern_is_named(excludes);
}

} // verus!
