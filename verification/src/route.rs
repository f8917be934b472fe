//! Routes, and the matching of observed paths against their patterns.

use crate::parser::{lemma_parse_continue_last, parse_spec, Parser};
use crate::path::{join_path, join_spec, same_texts, texts};
use crate::segment::{continue_only_last, fixed_len, is_open, pattern_view, Segment, SegmentView};
use vstd::hash_map::StringHashMap;
use vstd::prelude::*;
use vstd::std_specs::cmp::{PartialEqSpec, PartialEqSpecImpl};

verus! {

/// Whether a pattern segment that takes exactly one path segment takes
/// `token`.
pub open spec fn accepts(segment: SegmentView, token: Seq<char>) -> bool {
    match segment {
        SegmentView::Static(text) => text == token,
        SegmentView::Param(_) => true,
        SegmentView::Continue => false,
    }
}

/// Whether `observed` matches `pattern`: every segment before a closing
/// `Continue` takes the path segment in its place, and the path has as many
/// segments as the pattern, or at least as many where the pattern is open.
pub open spec fn pattern_matches(pattern: Seq<SegmentView>, observed: Seq<Seq<char>>) -> bool {
    &&& if is_open(pattern) {
        fixed_len(pattern) <= observed.len()
    } else {
        fixed_len(pattern) == observed.len()
    }
    &&& forall|i: int| 0 <= i < fixed_len(pattern) ==> accepts(#[trigger] pattern[i], observed[i])
}

/// The parameters bound by the first `n` segments of `pattern`: each name
/// with the path segment in its place, a later binding of a name replacing
/// an earlier one.
pub open spec fn bindings(pattern: Seq<SegmentView>, observed: Seq<Seq<char>>, n: int) -> Map<
    Seq<char>,
    Seq<char>,
>
    decreases n,
{
    if n <= 0 {
        Map::empty()
    } else {
        let earlier = bindings(pattern, observed, n - 1);
        match pattern[n - 1] {
            SegmentView::Param(name) => earlier.insert(name, observed[n - 1]),
            _ => earlier,
        }
    }
}

/// What a successful match holds.
pub struct MatchView {
    /// The path segments that the pattern consumed.
    pub path: Seq<Seq<char>>,
    /// The captured value of each parameter name.
    pub params: Map<Seq<char>, Seq<char>>,
    /// The path segments left over for a nested stage.
    pub remainder: Seq<Seq<char>>,
}

/// The outcome of matching `observed` against `pattern`.
pub open spec fn match_spec(pattern: Seq<SegmentView>, observed: Seq<Seq<char>>) -> Option<
    MatchView,
> {
    if pattern_matches(pattern, observed) {
        let n = fixed_len(pattern);
        Some(
            MatchView {
                path: observed.subrange(0, n),
                params: bindings(pattern, observed, n),
                remainder: observed.subrange(n, observed.len() as int),
            },
        )
    } else {
        None
    }
}

/// The captured values of `params`, each as its text.
pub open spec fn param_texts(params: Map<Seq<char>, String>) -> Map<Seq<char>, Seq<char>> {
    Map::new(|name: Seq<char>| params.contains_key(name), |name: Seq<char>| params[name]@)
}

/// A route: a compiled pattern and the resolver that produces its view.
#[derive(Debug)]
pub struct Route<R> {
    path: Vec<Segment>,
    resolver: R,
}

/// The result of a successful match of a path against a route.
pub struct RouteMatch<R> {
    path: Vec<String>,
    remainder: Vec<String>,
    params: StringHashMap<String>,
    route: Route<R>,
}

impl<R> Route<R> {
    /// The compiled pattern.
    pub closed spec fn pattern(&self) -> Seq<SegmentView> {
        pattern_view(self.path@)
    }

    /// The resolver that was registered with the route.
    pub closed spec fn resolver(&self) -> R {
        self.resolver
    }

    #[verifier::type_invariant]
    spec fn well_formed(&self) -> bool {
        continue_only_last(self.pattern())
    }

    /// A route for the pattern `path`, compiled here once, with the resolver
    /// that produces its view.
    pub fn new(path: &str, resolver: R) -> (route: Self)
        ensures
            route.pattern() == parse_spec(path@),
            route.resolver() == resolver,
    {
        let segments = Parser::parse(path);
        proof {
            lemma_parse_continue_last(path@, 0);
        }
        Route { path: segments, resolver }
    }

    /// Calls the resolver and returns the view that it produces.
    pub fn resolve<V>(&self) -> (view: V) where R: Fn() -> V
        requires
            call_requires(self.resolver(), ()),
        ensures
            call_ensures(self.resolver(), (), view),
    {
        (self.resolver)()
    }
}

impl<R: Copy> Clone for Route<R> {
    fn clone(&self) -> (copy: Self)
        ensures
            copy.pattern() == self.pattern(),
            copy.resolver() == self.resolver(),
    {
        proof {
            use_type_invariant(self);
        }
        let path = self.path.clone();
        Route { path, resolver: self.resolver }
    }
}

impl<R> View for RouteMatch<R> {
    type V = MatchView;

    closed spec fn view(&self) -> MatchView {
        MatchView {
            path: texts(self.path@),
            params: param_texts(self.params@),
            remainder: texts(self.remainder@),
        }
    }
}

impl<R> PartialEq for RouteMatch<R> {
    /// Two matches are equal if they consumed the same path, whatever their
    /// parameters, remainders and routes.
    fn eq(&self, other: &Self) -> (equal: bool) {
        same_texts(&self.path, &other.path)
    }
}

impl<R> PartialEqSpecImpl for RouteMatch<R> {
    open spec fn obeys_eq_spec() -> bool {
        true
    }

    open spec fn eq_spec(&self, other: &Self) -> bool {
        self@.path == other@.path
    }
}

impl<R: Copy> RouteMatch<R> {
    /// The route that produced the match.
    pub closed spec fn origin(&self) -> Route<R> {
        self.route
    }

    /// A match of `route` that has consumed nothing yet.
    pub fn from(route: &Route<R>) -> (fresh: Self)
        ensures
            fresh@.path == Seq::<Seq<char>>::empty(),
            fresh@.params == Map::<Seq<char>, Seq<char>>::empty(),
            fresh@.remainder == Seq::<Seq<char>>::empty(),
            fresh.origin().pattern() == route.pattern(),
            fresh.origin().resolver() == route.resolver(),
    {
        let fresh = RouteMatch {
            path: Vec::new(),
            remainder: Vec::new(),
            params: StringHashMap::new(),
            route: route.clone(),
        };
        fresh
    }

    /// The consumed path segments, joined by `/` into the canonical matched
    /// path.
    pub fn path(&self) -> (joined: String)
        ensures
            joined@ == join_spec(self@.path),
    {
        join_path(&self.path)
    }

    /// The path segments that the pattern left over.
    pub fn remainder(&self) -> (left: Vec<String>)
        ensures
            texts(left@) == self@.remainder,
    {
        let left = self.remainder.clone();
        left
    }

    /// The route that produced the match.
    pub fn route(&self) -> (origin: &Route<R>)
        ensures
            *origin == self.origin(),
    {
        &self.route
    }

    /// The value captured for the parameter `name`, if the pattern binds it.
    pub fn param(&self, name: &str) -> (value: Option<&String>)
        ensures
            match value {
                Some(text) => self@.params.contains_key(name@) && text@ == self@.params[name@],
                None => !self@.params.contains_key(name@),
            },
    {
        self.params.get(name)
    }
}

impl<R: Copy> Route<R> {
    /// Matches the observed path `sample` against the pattern, from left to
    /// right and without backtracking. On success the match holds the
    /// consumed segments, the captured parameters and the segments left over
    /// behind a closing `Continue`.
    pub fn matches(&self, sample: &Vec<String>) -> (found: Option<RouteMatch<R>>)
        ensures
            match found {
                Some(m) => {
                    &&& match_spec(self.pattern(), texts(sample@)) == Some(m@)
                    &&& m.origin().pattern() == self.pattern()
                    &&& m.origin().resolver() == self.resolver()
                },
                None => match_spec(self.pattern(), texts(sample@)) is None,
            },
    {
        proof {
            use_type_invariant(self);
        }
        let ghost pattern = self.pattern();
        let ghost observed = texts(sample@);
        let ghost n = fixed_len(pattern);
        let mut mtch = RouteMatch::from(self);
        let mut k: usize = 0;
        assert(observed.subrange(0, 0) =~= mtch@.path);
        loop
            invariant_except_break
                k <= sample.len(),
                forall|i: int| 0 <= i < k && i < n ==> accepts(#[trigger] pattern[i], observed[i]),
                k <= n ==> {
                    &&& mtch@.path == observed.subrange(0, k as int)
                    &&& mtch@.params == bindings(pattern, observed, k as int)
                    &&& mtch.remainder@.len() == 0
                },
                k > n ==> {
                    &&& is_open(pattern)
                    &&& mtch@.path == observed.subrange(0, n)
                    &&& mtch@.params == bindings(pattern, observed, n)
                    &&& mtch@.remainder == observed.subrange(n, k as int)
                },
            invariant
                pattern == self.pattern(),
                observed == texts(sample@),
                n == fixed_len(pattern),
                continue_only_last(pattern),
                mtch.origin().pattern() == self.pattern(),
                mtch.origin().resolver() == self.resolver(),
            ensures
                match_spec(pattern, observed) == Some(mtch@),
            decreases sample.len() - k,
        {
            if k < self.path.len() {
                assert(pattern[k as int] == self.path@[k as int]@);
                if k < sample.len() {
                    let token = &sample[k];
                    match &self.path[k] {
                        Segment::Static(text) => {
                            if *text == *token {
                                mtch.path.push(token.clone());
                            } else {
                                return None;
                            }
                        },
                        Segment::Param(name) => {
                            mtch.params.insert(name.clone(), token.clone());
                            mtch.path.push(token.clone());
                        },
                        Segment::Continue => {
                            mtch.remainder.push(token.clone());
                        },
                    }
                } else {
                    match &self.path[k] {
                        Segment::Continue => {
                            assert(mtch@.remainder =~= observed.subrange(
                                n,
                                observed.len() as int,
                            ));
                            break;
                        },
                        _ => {
                            return None;
                        },
                    }
                }
            } else {
                if k < sample.len() {
                    if mtch.remainder.len() > 0 {
                        let token = &sample[k];
                        mtch.remainder.push(token.clone());
                    } else {
                        return None;
                    }
                } else {
                    assert(mtch@.remainder =~= observed.subrange(n, observed.len() as int));
                    break;
                }
            }
            k += 1;
        }
        Some(mtch)
    }
}

/// A pattern without `Continue` matches no path of another length than its
/// own.
pub proof fn lemma_closed_pattern_fixes_length(
    pattern: Seq<SegmentView>,
    observed: Seq<Seq<char>>,
)
    requires
        forall|i: int| 0 <= i < pattern.len() ==> !(#[trigger] pattern[i] is Continue),
        observed.len() != pattern.len(),
    ensures
        match_spec(pattern, observed) is None,
{
}

/// A pattern that ends in `Continue` matches every path whose first
/// segments its segments before the `Continue` take, however many follow.
pub proof fn lemma_open_pattern_takes_any_rest(
    pattern: Seq<SegmentView>,
    observed: Seq<Seq<char>>,
    rest: Seq<Seq<char>>,
)
    requires
        is_open(pattern),
        pattern_matches(pattern, observed),
    ensures
        pattern_matches(pattern, observed.subrange(0, fixed_len(pattern)) + rest),
{
    let longer = observed.subrange(0, fixed_len(pattern)) + rest;
    assert forall|i: int| 0 <= i < fixed_len(pattern) implies accepts(
        #[trigger] pattern[i],
        longer[i],
    ) by {
        assert(longer[i] == observed[i]);
    }
}

/// A match divides the path: the consumed segments followed by the
/// remainder are the observed path. Nothing is left over unless the
/// pattern ends in `Continue`.
pub proof fn lemma_match_divides_path(pattern: Seq<SegmentView>, observed: Seq<Seq<char>>)
    requires
        match_spec(pattern, observed) is Some,
    ensures
        ({
            let m = match_spec(pattern, observed)->Some_0;
            &&& m.path + m.remainder == observed
            &&& m.path.len() == fixed_len(pattern)
            &&& !is_open(pattern) ==> m.remainder.len() == 0
        }),
{
}

/// Matching has one outcome for each pattern and path: the results of two
/// matches of the same path against the same pattern both fail or both
/// succeed, and then they are equal, as matches and in all that they hold.
pub proof fn lemma_matching_is_repeatable<R: Copy>(
    pattern: Seq<SegmentView>,
    observed: Seq<Seq<char>>,
    first: Option<RouteMatch<R>>,
    second: Option<RouteMatch<R>>,
)
    requires
        match first {
            Some(m) => match_spec(pattern, observed) == Some(m@),
            None => match_spec(pattern, observed) is None,
        },
        match second {
            Some(m) => match_spec(pattern, observed) == Some(m@),
            None => match_spec(pattern, observed) is None,
        },
    ensures
        first is Some <==> second is Some,
        first is Some ==> PartialEqSpec::eq_spec(&first->Some_0, &second->Some_0),
        first is Some ==> first->Some_0@ == second->Some_0@,
{
}

} // verus!
