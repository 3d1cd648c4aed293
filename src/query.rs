use vstd::prelude::*;

use crate::text::{begins_with, has_at, push_char, string_from, trimmed, trimmed_chars};

verus! {

/// What `std::path::Path::parent` gives for the path written as `p`.
pub uninterp spec fn parent_of(p: Seq<char>) -> Option<Seq<char>>;

/// The parent of the path written as `p`, if it has one.
///
/// Relies on `std::path::Path::parent`, which is computed from the text of
/// the path alone; the parent of a UTF-8 path is again UTF-8.
#[verifier::external_body]
fn parent_path(p: &str) -> (r: Option<String>)
    ensures
        match r {
            Some(q) => parent_of(p@) == Some(q@),
            None => parent_of(p@) is None,
        },
{
    match std::path::Path::new(p).parent() {
        Some(q) => Some(q.to_string_lossy().into_owned()),
        None => None,
    }
}

/// The result of splitting a raw query into its parent chain and its pattern.
pub struct ParsedQuery {
    /// The text to match candidate paths against.
    pub pattern: String,
    /// The directory to search from.
    pub search_base: String,
    /// The text to put before each result: one `../` per parent step.
    pub output_prefix: String,
    /// Whether the pattern is empty, which asks for a shallow listing.
    pub is_empty: bool,
}

/// `s` without one leading `./`.
pub open spec fn strip_current(s: Seq<char>) -> Seq<char> {
    if begins_with(s, "./"@) {
        s.skip(2)
    } else {
        s
    }
}

/// The number of `../` that `s` starts with.
pub open spec fn parent_chain(s: Seq<char>) -> nat
    decreases s.len(),
{
    if begins_with(s, "../"@) && s.len() >= 3 {
        1 + parent_chain(s.skip(3))
    } else {
        0
    }
}

/// `s` after the `../` that it starts with.
pub open spec fn after_chain(s: Seq<char>) -> Seq<char>
    decreases s.len(),
{
    if begins_with(s, "../"@) && s.len() >= 3 {
        after_chain(s.skip(3))
    } else {
        s
    }
}

/// The raw query once trimmed and without a leading `./`.
pub open spec fn query_head(raw: Seq<char>) -> Seq<char> {
    strip_current(trimmed(raw))
}

/// The number of parent steps that the raw query asks for: each leading
/// `../`, and a final bare `..`.
pub open spec fn parent_steps(raw: Seq<char>) -> nat {
    let h = query_head(raw);
    if after_chain(h) == ".."@ {
        parent_chain(h) + 1
    } else {
        parent_chain(h)
    }
}

/// The pattern left once the parent chain is taken from the raw query.
pub open spec fn query_pattern(raw: Seq<char>) -> Seq<char> {
    let r = after_chain(query_head(raw));
    if r == ".."@ {
        Seq::empty()
    } else {
        strip_current(r)
    }
}

/// `../` repeated `n` times.
pub open spec fn up_prefix(n: nat) -> Seq<char>
    decreases n,
{
    if n == 0 {
        Seq::empty()
    } else {
        up_prefix((n - 1) as nat) + "../"@
    }
}

/// One parent step from `p`; the root stays where it is.
pub open spec fn step_up(p: Seq<char>) -> Seq<char> {
    match parent_of(p) {
        Some(q) => q,
        None => p,
    }
}

/// `n` parent steps from `p`.
pub open spec fn ascend(p: Seq<char>, n: nat) -> Seq<char>
    decreases n,
{
    if n == 0 {
        p
    } else {
        step_up(ascend(p, (n - 1) as nat))
    }
}

proof fn lemma_literals()
    ensures
        "./"@ =~= seq!['.', '/'],
        "../"@ =~= seq!['.', '.', '/'],
        ".."@ =~= seq!['.', '.'],
{
    reveal_strlit("./");
    reveal_strlit("../");
    reveal_strlit("..");
}

/// Splits a raw query into the pattern to match, the directory to search
/// from and the prefix that results get.
pub fn parse_query(raw_query: &str, cwd: &str) -> (r: ParsedQuery)
    ensures
        r.pattern@ == query_pattern(raw_query@),
        r.output_prefix@ == up_prefix(parent_steps(raw_query@)),
        r.search_base@ == ascend(cwd@, parent_steps(raw_query@)),
        r.is_empty == (r.pattern@.len() == 0),
{
    proof {
        lemma_literals();
    }
    let q = trimmed_chars(raw_query);
    let ghost head = strip_current(q@);
    let mut at: usize = 0;
    if has_at(&q, 0, "./") {
        at = 2;
    }
    assert(q@.skip(0) =~= q@);
    assert(q@.skip(at as int) =~= head);
    let mut count: usize = 0;
    while has_at(&q, at, "../")
        invariant
            at <= q.len(),
            count <= at,
            parent_chain(head) == count + parent_chain(q@.skip(at as int)),
            after_chain(head) == after_chain(q@.skip(at as int)),
        decreases q@.len() - at,
    {
        proof {
            lemma_literals();
        }
        let ghost s = q@.skip(at as int);
        assert(s.skip(3) =~= q@.skip(at + 3));
        count = count + 1;
        at = at + 3;
    }
    let ghost rest = q@.skip(at as int);
    assert(after_chain(head) == rest);
    let mut start: usize = at;
    let bare_parent = q.len() - at == 2 && has_at(&q, at, "..");
    assert(bare_parent == (rest == ".."@)) by {
        assert(rest.len() == q@.len() - at);
        if rest.len() == 2 {
            assert(rest =~= rest.take(2));
        }
    }
    if bare_parent {
        count = count + 1;
        start = q.len();
        assert(q@.skip(start as int) =~= Seq::<char>::empty());
    } else if has_at(&q, at, "./") {
        start = at + 2;
        assert(q@.skip(start as int) =~= rest.skip(2));
    }
    let pattern = string_from(&q, start);
    let mut output_prefix = String::new();
    let mut search_base = cwd.to_owned();
    let mut i: usize = 0;
    assert(search_base@ =~= cwd@);
    while i < count
        invariant
            i <= count,
            output_prefix@ == up_prefix(i as nat),
            search_base@ == ascend(cwd@, i as nat),
        decreases count - i,
    {
        proof {
            lemma_literals();
        }
        push_char(&mut output_prefix, '.');
        push_char(&mut output_prefix, '.');
        push_char(&mut output_prefix, '/');
        assert(output_prefix@ =~= up_prefix((i + 1) as nat));
        search_base = match parent_path(search_base.as_str()) {
            Some(p) => p,
            None => search_base,
        };
        i = i + 1;
    }
    let is_empty = pattern.as_str().is_empty();
    ParsedQuery { pattern, search_base, output_prefix, is_empty }
}

/// What is left of a query head once its parent chain is taken never
/// starts with `../`.
proof fn lemma_after_chain_no_parent(s: Seq<char>)
    ensures
        !(begins_with(after_chain(s), "../"@) && after_chain(s).len() >= 3),
    decreases s.len(),
{
    if begins_with(s, "../"@) && s.len() >= 3 {
        lemma_after_chain_no_parent(s.skip(3));
    }
}

/// The pattern of a parsed query starts with neither `../` nor `./`, except
/// where what follows the parent chain starts with `././` or `./../`: one
/// `./` is stripped there, and the next one stays.
pub proof fn lemma_pattern_has_no_dot_prefix(raw: Seq<char>)
    requires
        !begins_with(after_chain(query_head(raw)), "././"@),
        !begins_with(after_chain(query_head(raw)), "./../"@),
    ensures
        !begins_with(query_pattern(raw), "../"@),
        !begins_with(query_pattern(raw), "./"@),
{
    lemma_literals();
    reveal_strlit("././");
    reveal_strlit("./../");
    let r = after_chain(query_head(raw));
    lemma_after_chain_no_parent(query_head(raw));
    if r != ".."@ && begins_with(r, "./"@) {
        let t = r.skip(2);
        if begins_with(t, "../"@) {
            assert(r.take(5) =~= "./../"@);
        }
        if begins_with(t, "./"@) {
            assert(r.take(4) =~= "././"@);
        }
    }
}

/// `s` starts with `n` times `../`.
pub open spec fn starts_with_ups(s: Seq<char>, n: nat) -> bool {
    &&& s.len() >= 3 * n
    &&& forall|k: int| 0 <= k < n ==> #[trigger] s.subrange(3 * k, 3 * k + 3) == "../"@
}

/// The raw query, trimmed and without a leading `./`, starts with exactly
/// `n` parent references: `n` times `../` followed by neither `../` nor a
/// bare `..`, or `n - 1` times `../` followed by a bare `..`.
pub open spec fn leading_parent_refs(raw: Seq<char>, n: nat) -> bool {
    let h = query_head(raw);
    ||| starts_with_ups(h, n) && !begins_with(h.skip((3 * n) as int), "../"@) && h.skip((3 * n) as int) != ".."@
    ||| n >= 1 && starts_with_ups(h, (n - 1) as nat) && h.skip((3 * (n - 1)) as int) == ".."@
}

proof fn lemma_ups_chain(s: Seq<char>, n: nat)
    requires
        starts_with_ups(s, n),
    ensures
        parent_chain(s) == n + parent_chain(s.skip((3 * n) as int)),
        after_chain(s) == after_chain(s.skip((3 * n) as int)),
    decreases n,
{
    lemma_literals();
    if n == 0 {
        assert(s.skip(0) =~= s);
    } else {
        let k0: int = 0;
        assert(s.subrange(3 * k0, 3 * k0 + 3) == "../"@);
        assert(s.subrange(3 * k0, 3 * k0 + 3) =~= s.subrange(0, 3));
        assert(s.take(3) =~= s.subrange(0, 3));
        let t = s.skip(3);
        assert forall|k: int| 0 <= k < n - 1 implies #[trigger] t.subrange(3 * k, 3 * k + 3)
            == "../"@ by {
            assert(s.subrange(3 * (k + 1), 3 * (k + 1) + 3) == "../"@);
            assert(t.subrange(3 * k, 3 * k + 3) =~= s.subrange(3 * (k + 1), 3 * (k + 1) + 3));
        }
        lemma_ups_chain(t, (n - 1) as nat);
        assert(t.skip((3 * (n - 1)) as int) =~= s.skip((3 * n) as int));
    }
}

/// A raw query with exactly `n` leading parent references asks for `n`
/// parent steps, so that `parse_query` gives it `../` repeated `n` times as
/// its output prefix and searches from `n` parent steps above the working
/// directory.
pub proof fn lemma_parent_refs_set_prefix_and_base(raw: Seq<char>, n: nat)
    requires
        leading_parent_refs(raw, n),
    ensures
        parent_steps(raw) == n,
        starts_with_ups(up_prefix(n), n),
        up_prefix(n).len() == 3 * n,
{
    lemma_literals();
    let h = query_head(raw);
    if starts_with_ups(h, n) && !begins_with(h.skip((3 * n) as int), "../"@) && h.skip((3 * n) as int) != ".."@ {
        lemma_ups_chain(h, n);
    } else {
        let m = (n - 1) as nat;
        lemma_ups_chain(h, m);
        let t = h.skip((3 * m) as int);
        assert(!(begins_with(t, "../"@) && t.len() >= 3));
    }
    lemma_up_prefix(n);
}

proof fn lemma_up_prefix(n: nat)
    ensures
        up_prefix(n).len() == 3 * n,
        starts_with_ups(up_prefix(n), n),
    decreases n,
{
    lemma_literals();
    if n > 0 {
        let m = (n - 1) as nat;
        lemma_up_prefix(m);
        let u = up_prefix(n);
        assert forall|k: int| 0 <= k < n implies #[trigger] u.subrange(3 * k, 3 * k + 3) == "../"@ by {
            if k < m {
                assert(u.subrange(3 * k, 3 * k + 3) =~= up_prefix(m).subrange(3 * k, 3 * k + 3));
            } else {
                assert(u.subrange(3 * k, 3 * k + 3) =~= "../"@);
            }
        }
    }
}

} // verus!
