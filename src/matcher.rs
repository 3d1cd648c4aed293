use vstd::prelude::*;

use nucleo_matcher::pattern::{Atom, AtomKind, CaseMatching, Normalization};
use nucleo_matcher::{Config, Matcher, Utf32Str};

verus! {

#[verifier::external_type_specification]
#[verifier::external_body]
pub struct ExMatcher(Matcher);

#[verifier::external_type_specification]
#[verifier::external_body]
pub struct ExAtom(Atom);

/// The score that nucleo gives the path `path` against `pattern` taken as
/// one fuzzy needle, with smart case and smart normalization, matched with
/// the configuration for file paths; `None` where it does not match at all.
pub uninterp spec fn path_score(pattern: Seq<char>, path: Seq<char>) -> Option<u32>;

/// A matcher configured for file paths.
///
/// Relies on `nucleo_matcher::Matcher::new` with `Config::DEFAULT.match_paths()`.
#[verifier::external_body]
fn path_matcher() -> Matcher {
    Matcher::new(Config::DEFAULT.match_paths())
}

/// The pattern `p` as a single fuzzy needle: no splitting into words and
/// no operator characters, smart case and smart normalization.
///
/// Relies on `nucleo_matcher::pattern::Atom::new` with `AtomKind::Fuzzy`
/// and no whitespace escaping.
#[verifier::external_body]
fn fuzzy_atom(p: &str) -> Atom {
    Atom::new(p, CaseMatching::Smart, Normalization::Smart, AtomKind::Fuzzy, false)
}

/// A pattern compiled once, together with the text it was compiled from.
pub struct CompiledPattern {
    source: String,
    compiled: Atom,
}

impl CompiledPattern {
    pub closed spec fn source(&self) -> Seq<char> {
        self.source@
    }

    /// Compiles `p`.
    pub fn new(p: &str) -> (r: CompiledPattern)
        ensures
            r.source() == p@,
    {
        CompiledPattern { source: p.to_owned(), compiled: fuzzy_atom(p) }
    }
}

/// The score of `path` against the compiled pattern.
///
/// Relies on `nucleo_matcher::pattern::Atom::score`: the score depends on
/// the needle's text and the path alone, since every matcher here has the
/// path configuration and the case and normalization settings are set from
/// the needle. `Utf32Str::new` may hand the matcher the path's UTF-8 bytes,
/// and the matcher asserts that the haystack has at most `u32::MAX` entries;
/// a character takes at most four bytes, hence the bound.
#[verifier::external_body]
fn score_path(m: &mut Matcher, pat: &CompiledPattern, path: &str) -> (r: Option<u32>)
    requires
        path@.len() <= u32::MAX / 4,
    ensures
        r == path_score(pat.source(), path@),
{
    let mut buf = Vec::new();
    match pat.compiled.score(Utf32Str::new(path, &mut buf), m) {
        Some(s) => Some(s as u32),
        None => None,
    }
}

/// Whether candidate `i` goes before candidate `j`: both matched, and `i`
/// scored higher, or scored the same and came first.
pub open spec fn ranks_before(scores: Seq<Option<u32>>, i: int, j: int) -> bool {
    &&& scores[i] is Some
    &&& scores[j] is Some
    &&& (scores[i]->0 > scores[j]->0 || (scores[i]->0 == scores[j]->0 && i < j))
}

/// `order` lists every matched candidate once, by descending score, ties in
/// input order.
pub open spec fn is_ranking(scores: Seq<Option<u32>>, order: Seq<int>) -> bool {
    &&& forall|k: int|
        0 <= k < order.len() ==> 0 <= #[trigger] order[k] < scores.len() && scores[order[k]] is Some
    &&& forall|i: int|
        0 <= i < scores.len() && #[trigger] scores[i] is Some ==> exists|k: int|
            0 <= k < order.len() && order[k] == i
    &&& forall|a: int, b: int|
        0 <= a < b < order.len() ==> ranks_before(scores, #[trigger] order[a], #[trigger] order[b])
}

/// `order` lists candidates by descending score, ties in input order.
pub open spec fn ranked(scores: Seq<Option<u32>>, order: Seq<int>) -> bool {
    forall|a: int, b: int|
        0 <= a < b < order.len() ==> ranks_before(scores, #[trigger] order[a], #[trigger] order[b])
}

/// Every entry of `o1` is in `o2`.
pub open spec fn listed_in(o1: Seq<int>, o2: Seq<int>) -> bool {
    forall|k: int| 0 <= k < o1.len() ==> o2.contains(#[trigger] o1[k])
}

proof fn lemma_ranked_lists_equal(scores: Seq<Option<u32>>, o1: Seq<int>, o2: Seq<int>)
    requires
        ranked(scores, o1),
        ranked(scores, o2),
        listed_in(o1, o2),
        listed_in(o2, o1),
    ensures
        o1 == o2,
    decreases o1.len(),
{
    if o1.len() == 0 {
        if o2.len() > 0 {
            assert(o1.contains(o2[0]));
        }
        assert(o1 =~= o2);
    } else {
        if o2.len() == 0 {
            assert(o2.contains(o1[0]));
        }
        let x = o1[0];
        let y = o2[0];
        if x != y {
            assert(o1.contains(y));
            assert(o2.contains(x));
            let j = choose|j: int| 0 <= j < o1.len() && o1[j] == y;
            let k = choose|k: int| 0 <= k < o2.len() && o2[k] == x;
            assert(ranks_before(scores, o1[0], o1[j]));
            assert(ranks_before(scores, o2[0], o2[k]));
        }
        let t1 = o1.drop_first();
        let t2 = o2.drop_first();
        assert forall|k: int| 0 <= k < t1.len() implies t2.contains(#[trigger] t1[k]) by {
            assert(o1[k + 1] == t1[k]);
            assert(o2.contains(o1[k + 1]));
            let j = choose|j: int| 0 <= j < o2.len() && o2[j] == o1[k + 1];
            assert(ranks_before(scores, o1[0], o1[k + 1]));
            assert(j != 0);
            assert(t2[j - 1] == t1[k]);
        }
        assert forall|k: int| 0 <= k < t2.len() implies t1.contains(#[trigger] t2[k]) by {
            assert(o2[k + 1] == t2[k]);
            assert(o1.contains(o2[k + 1]));
            let j = choose|j: int| 0 <= j < o1.len() && o1[j] == o2[k + 1];
            assert(ranks_before(scores, o2[0], o2[k + 1]));
            assert(j != 0);
            assert(t1[j - 1] == t2[k]);
        }
        assert forall|a: int, b: int| 0 <= a < b < t1.len() implies ranks_before(
            scores,
            #[trigger] t1[a],
            #[trigger] t1[b],
        ) by {
            assert(ranks_before(scores, o1[a + 1], o1[b + 1]));
        }
        assert forall|a: int, b: int| 0 <= a < b < t2.len() implies ranks_before(
            scores,
            #[trigger] t2[a],
            #[trigger] t2[b],
        ) by {
            assert(ranks_before(scores, o2[a + 1], o2[b + 1]));
        }
        lemma_ranked_lists_equal(scores, t1, t2);
        assert(x == y);
        assert(o1 =~= seq![x] + t1);
        assert(o2 =~= seq![y] + t2);
    }
}

/// The ranking of a list of scores is unique: two orders that both rank the
/// same scores are the same order.
pub proof fn lemma_ranking_unique(scores: Seq<Option<u32>>, o1: Seq<int>, o2: Seq<int>)
    requires
        is_ranking(scores, o1),
        is_ranking(scores, o2),
    ensures
        o1 == o2,
{
    assert forall|k: int| 0 <= k < o1.len() implies o2.contains(#[trigger] o1[k]) by {
        assert(scores[o1[k]] is Some);
        let j = choose|j: int| 0 <= j < o2.len() && o2[j] == o1[k];
        assert(o2[j] == o1[k]);
    }
    assert forall|k: int| 0 <= k < o2.len() implies o1.contains(#[trigger] o2[k]) by {
        assert(scores[o2[k]] is Some);
        let j = choose|j: int| 0 <= j < o1.len() && o1[j] == o2[k];
        assert(o1[j] == o2[k]);
    }
    lemma_ranked_lists_equal(scores, o1, o2);
}

/// `r` holds the paths at the first `limit` places of `order`.
pub open spec fn first_of_order(
    r: Seq<String>,
    paths: Seq<String>,
    order: Seq<int>,
    limit: nat,
) -> bool {
    &&& r.len() == if limit < order.len() {
        limit
    } else {
        order.len()
    }
    &&& forall|k: int| 0 <= k < r.len() ==> #[trigger] r[k]@ == paths[order[k]]@
}

/// The scores of `paths` against `pattern`.
pub open spec fn scores_of(pattern: Seq<char>, paths: Seq<String>) -> Seq<Option<u32>> {
    Seq::new(paths.len(), |i: int| path_score(pattern, paths[i]@))
}

fn scored_at_least(scores: &Vec<Option<u32>>, j: usize, s: u32) -> (r: bool)
    requires
        j < scores@.len(),
    ensures
        r == (scores@[j as int] is Some && scores@[j as int]->0 >= s),
{
    match scores[j] {
        Some(t) => t >= s,
        None => false,
    }
}

/// The paths of the matched candidates, best first and ties in input order,
/// at most `limit` of them; `scores[i]` is the score of `paths[i]`, `None`
/// where it does not match.
pub fn rank_scored(paths: &Vec<String>, scores: &Vec<Option<u32>>, limit: usize) -> (r: Vec<
    String,
>)
    requires
        paths@.len() == scores@.len(),
    ensures
        exists|order: Seq<int>|
            is_ranking(scores@, order) && first_of_order(r@, paths@, order, limit as nat),
        r@.len() <= limit,
        (forall|i: int| 0 <= i < scores@.len() ==> scores@[i] is None) ==> r@.len() == 0,
{
    let ghost sc = scores@;
    let mut order: Vec<usize> = Vec::new();
    let mut i: usize = 0;
    while i < scores.len()
        invariant
            sc == scores@,
            i <= sc.len(),
            forall|k: int| 0 <= k < order@.len() ==> #[trigger] order@[k] < i && sc[order@[k] as int] is Some,
            forall|j: int|
                0 <= j < i && #[trigger] sc[j] is Some ==> exists|k: int|
                    0 <= k < order@.len() && order@[k] == j,
            forall|a: int, b: int|
                0 <= a < b < order@.len() ==> ranks_before(sc, #[trigger] order@[a] as int, #[trigger] order@[b] as int),
        decreases sc.len() - i,
    {
        match scores[i] {
            Some(s) => {
                let mut p: usize = 0;
                while p < order.len() && scored_at_least(scores, order[p], s)
                    invariant
                        sc == scores@,
                        i < sc.len(),
                        sc[i as int] == Some(s),
                        p <= order@.len(),
                        forall|k: int| 0 <= k < order@.len() ==> #[trigger] order@[k] < i && sc[order@[k] as int] is Some,
                        forall|k: int| 0 <= k < p ==> sc[#[trigger] order@[k] as int]->0 >= s,
                    decreases order@.len() - p,
                {
                    p = p + 1;
                }
                let ghost old_order = order@;
                proof {
                    if p < old_order.len() {
                        assert(sc[old_order[p as int] as int]->0 < s);
                        assert forall|k: int| p <= k < old_order.len() implies sc[#[trigger] old_order[k] as int]->0 < s by {
                            if k > p {
                                assert(ranks_before(sc, old_order[p as int] as int, old_order[k] as int));
                            }
                        }
                    }
                }
                order.insert(p, i);
                proof {
                    assert(order@ == old_order.insert(p as int, i));
                    assert forall|a: int, b: int|
                        0 <= a < b < order@.len() implies ranks_before(sc, #[trigger] order@[a] as int, #[trigger] order@[b] as int) by {
                        if b < p {
                            assert(ranks_before(sc, old_order[a] as int, old_order[b] as int));
                        } else if b == p {
                        } else if a < p {
                            assert(ranks_before(sc, old_order[a] as int, old_order[b - 1] as int));
                        } else if a == p {
                        } else {
                            assert(ranks_before(sc, old_order[a - 1] as int, old_order[b - 1] as int));
                        }
                    }
                    assert forall|j: int|
                        0 <= j < i + 1 && #[trigger] sc[j] is Some implies exists|k: int|
                            0 <= k < order@.len() && order@[k] == j by {
                        if j == i {
                            assert(order@[p as int] == j);
                        } else {
                            let k0 = choose|k: int| 0 <= k < old_order.len() && old_order[k] == j;
                            if k0 < p {
                                assert(order@[k0] == j);
                            } else {
                                assert(order@[k0 + 1] == j);
                            }
                        }
                    }
                }
            },
            None => {},
        }
        i = i + 1;
    }
    let ghost ord = order@.map_values(|x: usize| x as int);
    assert(is_ranking(sc, ord)) by {
        assert forall|i: int| 0 <= i < sc.len() && #[trigger] sc[i] is Some implies exists|k: int|
            0 <= k < ord.len() && ord[k] == i by {
            let k0 = choose|k: int| 0 <= k < order@.len() && order@[k] == i;
            assert(ord[k0] == i);
        }
        assert forall|a: int, b: int| 0 <= a < b < ord.len() implies ranks_before(sc, #[trigger] ord[a], #[trigger] ord[b]) by {
            assert(ranks_before(sc, order@[a] as int, order@[b] as int));
        }
    }
    let n: usize = if limit < order.len() {
        limit
    } else {
        order.len()
    };
    let mut out: Vec<String> = Vec::new();
    let mut k: usize = 0;
    while k < n
        invariant
            n <= order@.len(),
            k <= n,
            out@.len() == k,
            paths@.len() == sc.len(),
            forall|j: int| 0 <= j < order@.len() ==> #[trigger] order@[j] < sc.len(),
            forall|j: int| 0 <= j < k ==> #[trigger] out@[j]@ == paths@[ord[j]]@,
            ord == order@.map_values(|x: usize| x as int),
        decreases n - k,
    {
        assert(order@[k as int] < sc.len());
        out.push(paths[order[k]].clone());
        k = k + 1;
    }
    proof {
        if forall|i: int| 0 <= i < sc.len() ==> sc[i] is None {
            if ord.len() > 0 {
                assert(sc[ord[0]] is Some);
            }
        }
    }
    out
}

/// `r` is what ranking `paths` against `pattern` gives: the first `limit`
/// paths in their order where the pattern is empty; otherwise the matched
/// paths, best first and ties in input order, at most `limit` of them.
pub open spec fn ranked_result(r: Seq<String>, paths: Seq<String>, pattern: Seq<char>, limit: nat) -> bool {
    &&& pattern.len() == 0 ==> first_of_order(r, paths, Seq::new(paths.len(), |i: int| i), limit)
    &&& pattern.len() > 0 ==> exists|order: Seq<int>|
        is_ranking(scores_of(pattern, paths), order) && first_of_order(r, paths, order, limit)
}

/// A ranking never gives more than `limit` paths.
pub proof fn lemma_ranked_result_within_limit(
    r: Seq<String>,
    paths: Seq<String>,
    pattern: Seq<char>,
    limit: nat,
)
    requires
        ranked_result(r, paths, pattern, limit),
    ensures
        r.len() <= limit,
{
    if pattern.len() > 0 {
        let order = choose|order: Seq<int>|
            is_ranking(scores_of(pattern, paths), order) && first_of_order(r, paths, order, limit);
    }
}

/// Where no path matches a non-empty pattern, the ranking is empty.
pub proof fn lemma_no_match_no_result(
    r: Seq<String>,
    paths: Seq<String>,
    pattern: Seq<char>,
    limit: nat,
)
    requires
        ranked_result(r, paths, pattern, limit),
        pattern.len() > 0,
        forall|i: int| 0 <= i < paths.len() ==> path_score(pattern, (#[trigger] paths[i])@) is None,
    ensures
        r.len() == 0,
{
    let sc = scores_of(pattern, paths);
    let order = choose|order: Seq<int>| is_ranking(sc, order) && first_of_order(r, paths, order, limit);
    if order.len() > 0 {
        assert(sc[order[0]] is Some);
        assert(path_score(pattern, paths[order[0]]@) is None);
    }
}

/// Ranks candidate paths against a fuzzy pattern.
pub struct FuzzyMatcher {
    matcher: Matcher,
}

impl FuzzyMatcher {
    /// A matcher configured for file paths.
    pub fn new() -> (r: FuzzyMatcher) {
        FuzzyMatcher { matcher: path_matcher() }
    }

    /// The first `limit` of `paths` in their order where `pattern` is empty;
    /// otherwise the paths that match `pattern`, best first and ties in
    /// input order, at most `limit` of them.
    pub fn match_paths(&mut self, paths: Vec<String>, pattern: &str, limit: usize) -> (r: Vec<
        String,
    >)
        requires
            pattern@.len() > 0 ==> forall|i: int|
                0 <= i < paths@.len() ==> (#[trigger] paths@[i])@.len() <= u32::MAX / 4,
        ensures
            ranked_result(r@, paths@, pattern@, limit as nat),
            r@.len() <= limit,
            pattern@.len() > 0 && (forall|i: int|
                0 <= i < paths@.len() ==> path_score(pattern@, (#[trigger] paths@[i])@) is None)
                ==> r@.len() == 0,
    {
        if pattern.is_empty() {
            let n: usize = if limit < paths.len() {
                limit
            } else {
                paths.len()
            };
            let mut out: Vec<String> = Vec::new();
            let mut k: usize = 0;
            while k < n
                invariant
                    n <= paths@.len(),
                    k <= n,
                    out@.len() == k,
                    forall|j: int| 0 <= j < k ==> #[trigger] out@[j]@ == paths@[j]@,
                decreases n - k,
            {
                out.push(paths[k].clone());
                k = k + 1;
            }
            return out;
        }
        let compiled = CompiledPattern::new(pattern);
        let mut scores: Vec<Option<u32>> = Vec::new();
        let mut i: usize = 0;
        while i < paths.len()
            invariant
                i <= paths@.len(),
                compiled.source() == pattern@,
                forall|j: int| 0 <= j < paths@.len() ==> (#[trigger] paths@[j])@.len() <= u32::MAX / 4,
                scores@ == scores_of(pattern@, paths@).take(i as int),
            decreases paths@.len() - i,
        {
            let s = score_path(&mut self.matcher, &compiled, paths[i].as_str());
            scores.push(s);
            assert(scores@ =~= scores_of(pattern@, paths@).take(i + 1));
            i = i + 1;
        }
        assert(scores@ =~= scores_of(pattern@, paths@));
        rank_scored(&paths, &scores, limit)
    }
}

} // verus!
