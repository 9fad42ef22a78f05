use vstd::prelude::*;

verus! {

#[verifier::external_type_specification]
#[verifier::external_body]
pub struct ExRegexSet(regex::RegexSet);

/// Whether some regular expression of `patterns` matches somewhere in
/// `haystack` (matching is unanchored unless a pattern anchors itself).
pub uninterp spec fn regex_set_matches(patterns: Seq<Seq<char>>, haystack: Seq<char>) -> bool;

/// Whether a pattern of `patterns` matches somewhere in `haystack`; a set
/// without patterns matches nothing.
pub open spec fn set_matches(patterns: Seq<Seq<char>>, haystack: Seq<char>) -> bool {
    patterns.len() > 0 && regex_set_matches(patterns, haystack)
}

/// The text of each string of `v`.
pub open spec fn texts(v: Seq<String>) -> Seq<Seq<char>> {
    v.map_values(|s: String| s@)
}

/// A compiled set of regular expressions, together with their sources.
pub struct PatternSet {
    sources: Vec<String>,
    set: regex::RegexSet,
}

impl PatternSet {
    /// The source text of each pattern in the set.
    pub closed spec fn patterns(&self) -> Seq<Seq<char>> {
        texts(self.sources@)
    }

    /// Compiles `sources`; fails when one of them is not a valid regular expression.
    pub fn new(sources: &Vec<String>) -> (r: Option<PatternSet>)
        ensures
            r matches Some(p) ==> p.patterns() == texts(sources@),
            sources@.len() == 0 ==> r is Some,
    {
        compile_set(sources)
    }

    /// A set without patterns, which matches nothing.
    pub fn empty() -> (r: PatternSet)
        ensures
            r.patterns() == Seq::<Seq<char>>::empty(),
    {
        let none: Vec<String> = Vec::new();
        let r = compile_set(&none);
        assert(texts(none@) =~= Seq::<Seq<char>>::empty());
        r.unwrap()
    }

    /// Whether a pattern of the set matches somewhere in `haystack`.
    pub fn is_match(&self, haystack: &String) -> (r: bool)
        ensures
            r == set_matches(self.patterns(), haystack@),
    {
        set_is_match(self, haystack)
    }
}

/// Relies on regex::RegexSet::new: it compiles every pattern of `sources`,
/// and fails only on an invalid one (an empty list always compiles).
#[verifier::external_body]
fn compile_set(sources: &Vec<String>) -> (r: Option<PatternSet>)
    ensures
        r matches Some(p) ==> p.patterns() == texts(sources@),
        sources@.len() == 0 ==> r is Some,
{
    match regex::RegexSet::new(sources) {
        Ok(set) => Some(PatternSet { sources: sources.clone(), set }),
        Err(_) => None,
    }
}

/// Relies on regex::RegexSet::is_match: true iff one of the set's patterns
/// matches somewhere in the haystack; a set without patterns matches nothing.
#[verifier::external_body]
fn set_is_match(p: &PatternSet, haystack: &String) -> (r: bool)
    ensures
        r == (p.patterns().len() > 0 && regex_set_matches(p.patterns(), haystack@)),
{
    p.set.is_match(haystack)
}

} // verus!
