use vstd::prelude::*;

use crate::matcher::{ranked_result, FuzzyMatcher};
use crate::query::ParsedQuery;
use crate::text::concat;

verus! {

/// The most lines that one query answers with.
pub const RESULT_LIMIT: usize = 50;

/// A request: the query and the working directory, either of which may be
/// absent.
pub struct Input {
    pub query: Option<String>,
    pub cwd: Option<String>,
}

impl Input {
    /// The query, or the empty string where there is none.
    pub fn query_text(&self) -> (r: String)
        ensures
            r@ == match self.query {
                Some(q) => q@,
                None => Seq::empty(),
            },
    {
        match &self.query {
            Some(q) => q.clone(),
            None => String::new(),
        }
    }
}

/// Each of `paths` with `prefix` before it.
pub fn prefixed(prefix: &str, paths: &Vec<String>) -> (r: Vec<String>)
    ensures
        r@.len() == paths@.len(),
        forall|k: int| 0 <= k < r@.len() ==> (#[trigger] r@[k])@ == prefix@ + paths@[k]@,
{
    let mut out: Vec<String> = Vec::new();
    let mut k: usize = 0;
    while k < paths.len()
        invariant
            k <= paths@.len(),
            out@.len() == k,
            forall|j: int| 0 <= j < k ==> (#[trigger] out@[j])@ == prefix@ + paths@[j]@,
        decreases paths@.len() - k,
    {
        out.push(concat(prefix, paths[k].as_str()));
        k = k + 1;
    }
    out
}

/// The response lines for a parsed query over the candidates that a walk
/// found: the ranked candidates, at most `RESULT_LIMIT`, each after the
/// query's output prefix.
pub fn complete(matcher: &mut FuzzyMatcher, parsed: &ParsedQuery, candidates: Vec<String>) -> (r:
    Vec<String>)
    requires
        parsed.pattern@.len() > 0 ==> forall|i: int|
            0 <= i < candidates@.len() ==> (#[trigger] candidates@[i])@.len() <= u32::MAX / 4,
    ensures
        exists|m: Seq<String>|
            ranked_result(m, candidates@, parsed.pattern@, RESULT_LIMIT as nat) && r@.len()
                == m.len() && forall|k: int|
                0 <= k < r@.len() ==> (#[trigger] r@[k])@ == parsed.output_prefix@ + m[k]@,
        r@.len() <= RESULT_LIMIT,
{
    let found = matcher.match_paths(candidates, parsed.pattern.as_str(), RESULT_LIMIT);
    prefixed(parsed.output_prefix.as_str(), &found)
}

} // verus!
