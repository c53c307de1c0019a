//! A compiled multi-pattern matcher for special-token or sentinel scanning.
//!
//! Patterns are compiled once by `aho_corasick` and reused across many
//! haystacks. Matching uses leftmost-longest semantics, the same as the
//! tokenizer engine's added-token scanner.

use aho_corasick::{AhoCorasick, BuildError, Input, MatchKind};
use vstd::prelude::*;

verus! {

#[verifier::external_type_specification]
#[verifier::external_body]
pub struct ExAhoCorasick(AhoCorasick);

#[verifier::external_type_specification]
#[verifier::external_body]
pub struct ExBuildError(BuildError);

/// The patterns that an automaton was built from, in the order given.
pub uninterp spec fn automaton_patterns(a: AhoCorasick) -> Seq<Seq<u8>>;

/// Whether an automaton was built with leftmost-longest match semantics.
pub uninterp spec fn automaton_is_leftmost_longest(a: AhoCorasick) -> bool;

/// Whether `aho_corasick` builds a leftmost-longest automaton over these
/// patterns, in this order, or refuses them.
pub uninterp spec fn aho_corasick_builds(patterns: Seq<Seq<u8>>) -> bool;

/// What `AhoCorasick::find` reports for `haystack` searched from `from`.
pub uninterp spec fn automaton_find(a: AhoCorasick, haystack: Seq<u8>, from: usize) -> Option<
    (usize, usize, usize),
>;

/// At most 100 patterns of at most 100 bytes each: far below the limits on
/// pattern and state identifiers (`i32::MAX - 1`) past which `aho_corasick`
/// refuses to build.
pub open spec fn within_build_limits(patterns: Seq<Seq<u8>>) -> bool {
    &&& patterns.len() <= 100
    &&& forall|i: int| 0 <= i < patterns.len() ==> #[trigger] patterns[i].len() <= 100
}

/// Pattern `p` occurs in `haystack` at byte offset `start`.
pub open spec fn occurs_at(patterns: Seq<Seq<u8>>, haystack: Seq<u8>, p: int, start: int) -> bool {
    &&& 0 <= p < patterns.len()
    &&& 0 <= start
    &&& start + patterns[p].len() <= haystack.len()
    &&& haystack.subrange(start, start + patterns[p].len()) == patterns[p]
}

/// No pattern occurs in `haystack` at or after `from`.
pub open spec fn no_match_from(patterns: Seq<Seq<u8>>, haystack: Seq<u8>, from: int) -> bool {
    forall|p: int, t: int| from <= t ==> !#[trigger] occurs_at(patterns, haystack, p, t)
}

/// `m = (pattern, start, end)` is the leftmost-longest match at or after
/// `from`: no pattern occurs between `from` and `start`, and no pattern that
/// occurs at `start` is longer.
pub open spec fn is_leftmost_longest_from(
    patterns: Seq<Seq<u8>>,
    haystack: Seq<u8>,
    from: int,
    m: (usize, usize, usize),
) -> bool {
    let (p, s, e) = m;
    &&& from <= s
    &&& occurs_at(patterns, haystack, p as int, s as int)
    &&& e == s + patterns[p as int].len()
    &&& forall|q: int, t: int| from <= t < s ==> !#[trigger] occurs_at(patterns, haystack, q, t)
    &&& forall|q: int|
        #[trigger] occurs_at(patterns, haystack, q, s as int) ==> patterns[q].len() <= e - s
}

/// `ms` is the sequence of non-overlapping leftmost-longest matches found by
/// searching from `from`, then from the end of each match in turn.
pub open spec fn is_match_sequence(
    patterns: Seq<Seq<u8>>,
    haystack: Seq<u8>,
    from: int,
    ms: Seq<(usize, usize, usize)>,
) -> bool
    decreases ms.len(),
{
    if ms.len() == 0 {
        no_match_from(patterns, haystack, from)
    } else {
        &&& is_leftmost_longest_from(patterns, haystack, from, ms[0])
        &&& is_match_sequence(patterns, haystack, ms[0].2 as int, ms.drop_first())
    }
}

/// Builds an automaton over `patterns` with `AhoCorasick::builder()`,
/// `match_kind(MatchKind::LeftmostLongest)` and `build`. Whether it builds
/// depends on the patterns alone; `build` only fails when a pattern or state
/// identifier would pass its limit (`i32::MAX - 1`), which a set within
/// `within_build_limits` cannot reach. On success the automaton holds
/// exactly the given patterns, in order, with leftmost-longest semantics.
#[verifier::external_body]
fn build_leftmost_longest(patterns: &Vec<&[u8]>) -> (res: Result<AhoCorasick, BuildError>)
    ensures
        res is Ok <==> aho_corasick_builds(patterns@.map_values(|p: &[u8]| p@)),
        within_build_limits(patterns@.map_values(|p: &[u8]| p@)) ==> res is Ok,
        res matches Ok(a) ==> {
            &&& automaton_patterns(a) == patterns@.map_values(|p: &[u8]| p@)
            &&& automaton_is_leftmost_longest(a)
        },
{
    AhoCorasick::builder().match_kind(MatchKind::LeftmostLongest).build(patterns)
}

/// `AhoCorasick::find` over `haystack[from..]` (an `Input` restricted with
/// `range(from..)`), as `(pattern index, start, end)` in haystack offsets.
/// For a leftmost-longest automaton the crate documents that the reported
/// match is the leftmost one and, among those, the longest; `None` means
/// that no pattern occurs in the range. The result depends on the automaton,
/// the haystack and `from` alone.
#[verifier::external_body]
fn find_from(a: &AhoCorasick, haystack: &[u8], from: usize) -> (res: Option<(usize, usize, usize)>)
    requires
        from <= haystack@.len(),
        automaton_is_leftmost_longest(*a),
    ensures
        res == automaton_find(*a, haystack@, from),
        match res {
            Some(m) => is_leftmost_longest_from(automaton_patterns(*a), haystack@, from as int, m),
            None => no_match_from(automaton_patterns(*a), haystack@, from as int),
        },
{
    match a.find(Input::new(haystack).range(from..)) {
        Some(m) => Some((m.pattern().as_usize(), m.start(), m.end())),
        None => None,
    }
}

/// `AhoCorasick::is_match`: true if and only if some pattern occurs anywhere
/// in `haystack`.
#[verifier::external_body]
fn automaton_is_match(a: &AhoCorasick, haystack: &[u8]) -> (res: bool)
    ensures
        res == !no_match_from(automaton_patterns(*a), haystack@, 0),
{
    a.is_match(haystack)
}

/// Why a matcher could not be built.
#[derive(Debug)]
pub enum MatcherError {
    /// One of the patterns is empty.
    EmptyPattern,
    /// The automaton could not be compiled.
    Build(BuildError),
}

/// The text that `BuildError`'s `Display` writes for `e`.
pub uninterp spec fn build_error_text(e: BuildError) -> Seq<char>;

/// `BuildError`'s `Display` text, through `to_string`. It depends on the
/// error alone.
#[verifier::external_body]
fn build_error_message(e: &BuildError) -> (res: String)
    ensures
        res@ == build_error_text(*e),
{
    e.to_string()
}

/// The text of a matcher error.
pub open spec fn matcher_error_text(e: MatcherError) -> Seq<char> {
    match e {
        MatcherError::EmptyPattern => "empty matcher patterns are not supported"@,
        MatcherError::Build(b) => "failed to build matcher: "@ + build_error_text(b),
    }
}

impl MatcherError {
    /// A description of the error; a build failure ends with the automaton
    /// builder's own description.
    pub fn message(&self) -> (res: String)
        ensures
            res@ == matcher_error_text(*self),
    {
        match self {
            MatcherError::EmptyPattern => String::from_str("empty matcher patterns are not supported"),
            MatcherError::Build(e) => {
                let mut text = String::from_str("failed to build matcher: ");
                let detail = build_error_message(e);
                text.append(detail.as_str());
                text
            },
        }
    }
}

/// A compiled multi-pattern matcher with leftmost-longest semantics.
pub struct SubstringMatcher {
    automaton: AhoCorasick,
}

impl SubstringMatcher {
    /// The patterns this matcher searches for, in the order given to `new`.
    pub closed spec fn patterns(&self) -> Seq<Seq<u8>> {
        automaton_patterns(self.automaton)
    }

    /// What a search of `haystack` from `from` reports.
    pub closed spec fn search_from(&self, haystack: Seq<u8>, from: usize) -> Option<
        (usize, usize, usize),
    > {
        automaton_find(self.automaton, haystack, from)
    }

    /// `ms` is what searching `haystack` from `from`, then from the end of
    /// each match in turn, reports, up to the first search that finds
    /// nothing.
    pub open spec fn is_search_chain(
        &self,
        haystack: Seq<u8>,
        from: usize,
        ms: Seq<(usize, usize, usize)>,
    ) -> bool
        decreases ms.len(),
    {
        if ms.len() == 0 {
            self.search_from(haystack, from) is None
        } else {
            &&& self.search_from(haystack, from) == Some(ms[0])
            &&& self.is_search_chain(haystack, ms[0].2, ms.drop_first())
        }
    }

    #[verifier::type_invariant]
    closed spec fn wf(&self) -> bool {
        &&& automaton_is_leftmost_longest(self.automaton)
        &&& forall|i: int| 0 <= i < self.patterns().len() ==> self.patterns()[i].len() > 0
    }

    /// Build a matcher. Empty patterns are rejected because they do not form a
    /// useful special-token boundary and would match at every byte position.
    pub fn new(patterns: &[&[u8]]) -> (res: Result<Self, MatcherError>)
        ensures
            (res matches Err(MatcherError::EmptyPattern)) <==> exists|i: int|
                0 <= i < patterns@.len() && #[trigger] patterns@[i]@.len() == 0,
            (res matches Err(MatcherError::Build(_))) <==> (forall|i: int|
                0 <= i < patterns@.len() ==> #[trigger] patterns@[i]@.len() > 0)
                && !aho_corasick_builds(patterns@.map_values(|p: &[u8]| p@)),
            res matches Ok(m) ==> m.patterns() == patterns@.map_values(|p: &[u8]| p@),
            ((forall|i: int| 0 <= i < patterns@.len() ==> #[trigger] patterns@[i]@.len() > 0)
                && within_build_limits(patterns@.map_values(|p: &[u8]| p@))) ==> res is Ok,
    {
        let mut collected: Vec<&[u8]> = Vec::with_capacity(patterns.len());
        let mut i: usize = 0;
        while i < patterns.len()
            invariant
                i <= patterns@.len(),
                collected@ == patterns@.take(i as int),
                forall|j: int| 0 <= j < i ==> patterns@[j]@.len() > 0,
            decreases patterns@.len() - i,
        {
            if patterns[i].len() == 0 {
                return Err(MatcherError::EmptyPattern);
            }
            collected.push(patterns[i]);
            i += 1;
            proof {
                assert(collected@ =~= patterns@.take(i as int));
            }
        }
        proof {
            assert(collected@ =~= patterns@);
        }
        match build_leftmost_longest(&collected) {
            Ok(automaton) => Ok(SubstringMatcher { automaton }),
            Err(e) => Err(MatcherError::Build(e)),
        }
    }

    /// Return the first (leftmost-longest) match, if any, as
    /// `(pattern_index, start, end)`.
    pub fn find(&self, haystack: &[u8]) -> (res: Option<(usize, usize, usize)>)
        ensures
            res == self.search_from(haystack@, 0),
            match res {
                Some(m) => is_leftmost_longest_from(self.patterns(), haystack@, 0, m),
                None => no_match_from(self.patterns(), haystack@, 0),
            },
    {
        proof {
            use_type_invariant(self);
        }
        find_from(&self.automaton, haystack, 0)
    }

    /// Return whether any pattern occurs in `haystack`.
    pub fn contains(&self, haystack: &[u8]) -> (res: bool)
        ensures
            res == !no_match_from(self.patterns(), haystack@, 0),
    {
        automaton_is_match(&self.automaton, haystack)
    }

    /// Return `(pattern_index, start, end)` for each non-overlapping match,
    /// in order of position.
    #[verifier::rlimit(40)]
    pub fn find_iter(&self, haystack: &[u8]) -> (res: Vec<(usize, usize, usize)>)
        ensures
            is_match_sequence(self.patterns(), haystack@, 0, res@),
            self.is_search_chain(haystack@, 0, res@),
    {
        proof {
            use_type_invariant(self);
        }
        let mut out: Vec<(usize, usize, usize)> = Vec::new();
        let mut pos: usize = 0;
        let ghost pats = self.patterns();
        loop
            invariant
                pats == self.patterns(),
                automaton_is_leftmost_longest(self.automaton),
                forall|i: int| 0 <= i < pats.len() ==> pats[i].len() > 0,
                pos <= haystack@.len(),
                forall|rest: Seq<(usize, usize, usize)>|
                    is_match_sequence(pats, haystack@, pos as int, rest) ==> is_match_sequence(
                        pats,
                        haystack@,
                        0,
                        #[trigger] (out@ + rest),
                    ),
                forall|rest: Seq<(usize, usize, usize)>|
                    self.is_search_chain(haystack@, pos, rest) ==> self.is_search_chain(
                        haystack@,
                        0,
                        #[trigger] (out@ + rest),
                    ),
            decreases haystack@.len() - pos,
        {
            match find_from(&self.automaton, haystack, pos) {
                None => {
                    proof {
                        assert(out@ + seq![] =~= out@);
                        assert(is_match_sequence(pats, haystack@, pos as int, seq![]));
                        assert(self.is_search_chain(haystack@, pos, seq![]));
                    }
                    return out;
                },
                Some(m) => {
                    let ghost old_out = out@;
                    let ghost old_pos = pos;
                    proof {
                        assert(pats[m.0 as int].len() > 0);
                        assert forall|rest: Seq<(usize, usize, usize)>|
                            is_match_sequence(pats, haystack@, m.2 as int, rest) implies
                            is_match_sequence(pats, haystack@, 0, #[trigger] (old_out.push(m) + rest)) by {
                            let r2 = seq![m] + rest;
                            assert(r2.drop_first() =~= rest);
                            assert(is_match_sequence(pats, haystack@, old_pos as int, r2));
                            assert(old_out + r2 =~= old_out.push(m) + rest);
                        }
                        assert forall|rest: Seq<(usize, usize, usize)>|
                            self.is_search_chain(haystack@, m.2, rest) implies
                            self.is_search_chain(haystack@, 0, #[trigger] (old_out.push(m) + rest)) by {
                            let r2 = seq![m] + rest;
                            assert(r2.drop_first() =~= rest);
                            assert(self.is_search_chain(haystack@, old_pos, r2));
                            assert(old_out + r2 =~= old_out.push(m) + rest);
                        }
                    }
                    out.push(m);
                    pos = m.2;
                },
            }
        }
    }

    /// Collect all non-overlapping matches.
    pub fn find_all(&self, haystack: &[u8]) -> (res: Vec<(usize, usize, usize)>)
        ensures
            is_match_sequence(self.patterns(), haystack@, 0, res@),
            self.is_search_chain(haystack@, 0, res@),
    {
        self.find_iter(haystack)
    }
}

/// Searching the same haystack the same way reports the same matches: there
/// is one search chain from each position, so `find_iter` and `find_all`
/// agree, and both start with the match that `find` reports.
pub proof fn lemma_search_chain_unique(
    m: &SubstringMatcher,
    haystack: Seq<u8>,
    from: usize,
    a: Seq<(usize, usize, usize)>,
    b: Seq<(usize, usize, usize)>,
)
    requires
        m.is_search_chain(haystack, from, a),
        m.is_search_chain(haystack, from, b),
    ensures
        a == b,
    decreases a.len(),
{
    if a.len() > 0 {
        assert(b.len() > 0);
        assert(a[0] == b[0]);
        lemma_search_chain_unique(m, haystack, a[0].2, a.drop_first(), b.drop_first());
        assert(a =~= seq![a[0]] + a.drop_first());
        assert(b =~= seq![b[0]] + b.drop_first());
    } else {
        assert(b.len() == 0);
        assert(a =~= b);
    }
}

/// Matches found by successive leftmost-longest searches never overlap and
/// come in order of position: each match starts at or after the end of the
/// one before it.
pub proof fn lemma_match_sequence_ordered(
    patterns: Seq<Seq<u8>>,
    haystack: Seq<u8>,
    from: int,
    ms: Seq<(usize, usize, usize)>,
    i: int,
)
    requires
        is_match_sequence(patterns, haystack, from, ms),
        0 <= i < ms.len() - 1,
    ensures
        ms[i].2 <= ms[i + 1].1,
    decreases ms.len(),
{
    let rest = ms.drop_first();
    assert(is_match_sequence(patterns, haystack, ms[0].2 as int, rest));
    if i > 0 {
        lemma_match_sequence_ordered(patterns, haystack, ms[0].2 as int, rest, i - 1);
        assert(rest[i - 1] == ms[i] && rest[i] == ms[i + 1]);
    } else {
        assert(rest[0] == ms[1]);
        assert(is_leftmost_longest_from(patterns, haystack, ms[0].2 as int, rest[0]));
    }
}

} // verus!
