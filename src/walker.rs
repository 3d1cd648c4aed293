use vstd::prelude::*;

use crate::text::{chars_of, segment_is, string_from};

verus! {

/// How deep a walk goes below its root; the root is depth 0.
pub struct WalkConfig {
    pub max_depth: usize,
}

/// The depth bound of a listing, when the pattern is empty.
pub const SHALLOW_DEPTH: usize = 2;

/// The depth bound of a search, when the pattern is not empty.
pub const DEEP_DEPTH: usize = 6;

impl WalkConfig {
    /// The bound for a listing.
    pub fn shallow() -> (r: WalkConfig)
        ensures
            r.max_depth == SHALLOW_DEPTH,
    {
        WalkConfig { max_depth: SHALLOW_DEPTH }
    }

    /// The bound for a search.
    pub fn deep() -> (r: WalkConfig)
        ensures
            r.max_depth == DEEP_DEPTH,
    {
        WalkConfig { max_depth: DEEP_DEPTH }
    }

    /// The bound for a query whose pattern is empty or not.
    pub fn for_query(is_empty: bool) -> (r: WalkConfig)
        ensures
            r.max_depth == if is_empty {
                SHALLOW_DEPTH
            } else {
                DEEP_DEPTH
            },
    {
        if is_empty {
            WalkConfig::shallow()
        } else {
            WalkConfig::deep()
        }
    }
}

/// The directory names that a walk neither reports nor enters.
pub open spec fn skip_names() -> Seq<Seq<char>> {
    seq![
        ".git"@,
        "node_modules"@,
        ".venv"@,
        "__pycache__"@,
        ".mypy_cache"@,
        ".cache"@,
        "dist"@,
        "build"@,
        ".next"@,
        "target"@,
        ".tox"@,
        ".pytest_cache"@,
    ]
}

/// Whether `name` is on the skip list.
pub open spec fn is_skip_name(name: Seq<char>) -> bool {
    skip_names().contains(name)
}

fn skip_list() -> (r: Vec<&'static str>)
    ensures
        r@.len() == skip_names().len(),
        forall|k: int| 0 <= k < r@.len() ==> (#[trigger] r@[k])@ == skip_names()[k],
{
    let mut v: Vec<&'static str> = Vec::new();
    v.push(".git");
    v.push("node_modules");
    v.push(".venv");
    v.push("__pycache__");
    v.push(".mypy_cache");
    v.push(".cache");
    v.push("dist");
    v.push("build");
    v.push(".next");
    v.push("target");
    v.push(".tox");
    v.push(".pytest_cache");
    v
}

/// Whether `v[from..to]` is on the skip list.
fn skip_name_at(v: &[char], from: usize, to: usize) -> (r: bool)
    requires
        from <= to <= v@.len(),
    ensures
        r == is_skip_name(v@.subrange(from as int, to as int)),
{
    let list = skip_list();
    let mut k: usize = 0;
    while k < list.len()
        invariant
            from <= to <= v@.len(),
            list@.len() == skip_names().len(),
            forall|j: int| 0 <= j < list@.len() ==> (#[trigger] list@[j])@ == skip_names()[j],
            k <= list@.len(),
            forall|j: int| 0 <= j < k ==> skip_names()[j] != v@.subrange(from as int, to as int),
        decreases list@.len() - k,
    {
        if segment_is(v, from, to, list[k]) {
            assert(skip_names()[k as int] == v@.subrange(from as int, to as int));
            return true;
        }
        k = k + 1;
    }
    false
}

/// Whether an entry is a directory on the skip list, which a walk neither
/// reports nor enters; `name` is its file name, `None` where it is not UTF-8.
pub fn should_skip_entry(is_dir: bool, name: Option<&str>) -> (r: bool)
    ensures
        r == (is_dir && name is Some && is_skip_name(name->0@)),
{
    if !is_dir {
        return false;
    }
    match name {
        Some(n) => {
            let v = chars_of(n);
            let r = skip_name_at(&v, 0, v.len());
            assert(v@.subrange(0, v@.len() as int) =~= n@);
            r
        },
        None => false,
    }
}

/// Whether `p[i..j]` is a whole segment of the slash-separated path `p`.
pub open spec fn is_segment(p: Seq<char>, i: int, j: int) -> bool {
    &&& 0 <= i <= j <= p.len()
    &&& (i == 0 || p[i - 1] == '/')
    &&& (j == p.len() || p[j] == '/')
    &&& forall|k: int| i <= k < j ==> p[k] != '/'
}

/// Whether some segment of the path `p` is on the skip list.
pub open spec fn has_skip_segment(p: Seq<char>) -> bool {
    exists|i: int, j: int| is_segment(p, i, j) && is_skip_name(#[trigger] p.subrange(i, j))
}

/// Whether some segment of the relative path `path` is on the skip list.
pub fn path_contains_skip_dir(path: &str) -> (r: bool)
    ensures
        r == has_skip_segment(path@),
{
    let v = chars_of(path);
    let ghost p = path@;
    let mut start: usize = 0;
    let mut idx: usize = 0;
    while idx < v.len()
        invariant
            v@ == p,
            p == path@,
            start <= idx <= v@.len(),
            start == 0 || p[start - 1] == '/',
            forall|k: int| start <= k < idx ==> p[k] != '/',
            forall|i: int, j: int|
                j < idx && is_segment(p, i, j) ==> !is_skip_name(#[trigger] p.subrange(i, j)),
        decreases v@.len() - idx,
    {
        if v[idx] == '/' {
            proof {
                lemma_segment_start(p, start as int, idx as int);
            }
            if skip_name_at(&v, start, idx) {
                assert(is_segment(p, start as int, idx as int));
                assert(is_skip_name(p.subrange(start as int, idx as int)));
                return true;
            }
            start = idx + 1;
        } else {
            assert forall|i: int| !is_segment(p, i, idx as int) by {}
        }
        idx = idx + 1;
    }
    proof {
        lemma_segment_start(p, start as int, idx as int);
    }
    let r = skip_name_at(&v, start, idx);
    if r {
        assert(is_segment(p, start as int, idx as int));
        assert(is_skip_name(p.subrange(start as int, idx as int)));
    }
    r
}

/// A segment that ends at `end` starts right after the last slash before it.
proof fn lemma_segment_start(p: Seq<char>, start: int, end: int)
    requires
        0 <= start <= end <= p.len(),
        start == 0 || p[start - 1] == '/',
        forall|k: int| start <= k < end ==> p[k] != '/',
    ensures
        forall|i: int| is_segment(p, i, end) ==> i == start,
{
    assert forall|i: int| is_segment(p, i, end) implies i == start by {
        if i < start {
            assert(p[start - 1] != '/');
        } else if i > start {
            assert(p[i - 1] != '/');
        }
    }
}

/// What a walk does with one entry.
pub enum EntryAction {
    /// Report nothing and go on, into the entry if it is a directory.
    Descend,
    /// Report nothing and do not enter the entry.
    Prune,
    /// Report this relative path and go on, into the entry if it is a directory.
    Report(String),
}

/// What a walk does with an entry at `depth` below its root: the root itself
/// is never reported; a directory on the skip list is pruned; any other entry
/// is reported by its relative path unless that path is not UTF-8 (`None`)
/// or has a segment on the skip list.
pub fn visit_entry(depth: usize, is_dir: bool, name: Option<&str>, rel_path: Option<&str>) -> (r:
    EntryAction)
    ensures
        r matches EntryAction::Report(s) ==> !has_skip_segment(s@),
        depth == 0 ==> r is Descend,
        depth > 0 && is_dir && name is Some && is_skip_name(name->0@) ==> r is Prune,
        depth > 0 && !(is_dir && name is Some && is_skip_name(name->0@)) ==> match rel_path {
            Some(p) => if has_skip_segment(p@) {
                r is Descend
            } else {
                r matches EntryAction::Report(s) && s@ == p@
            },
            None => r is Descend,
        },
{
    if depth == 0 {
        return EntryAction::Descend;
    }
    if should_skip_entry(is_dir, name) {
        return EntryAction::Prune;
    }
    match rel_path {
        Some(p) => {
            if path_contains_skip_dir(p) {
                EntryAction::Descend
            } else {
                let v = chars_of(p);
                let s = string_from(&v, 0);
                assert(v@.skip(0) =~= p@);
                EntryAction::Report(s)
            }
        },
        None => EntryAction::Descend,
    }
}

} // verus!
