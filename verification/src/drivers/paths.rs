use crate::drivers::common::IgnoreSet;
use vstd::prelude::*;
use vstd::string::StrSliceExecFns;

verus! {

/// The values of a sequence of strings, in the same order.
pub open spec fn text_views(texts: Seq<String>) -> Seq<Seq<char>> {
    Seq::new(texts.len(), |i: int| texts[i]@)
}

/// What a failure says when a path does not lie under the root of its crawl.
pub open spec fn outside_root_detail() -> Seq<char> {
    "Internal error: failed to strip prefix"@
}

/// The character that separates the segments of a path.
pub open spec fn is_separator(c: char) -> bool {
    c == '/'
}

/// What is left of `path` once `root` and the separator after it are taken off its
/// front: nothing if the two are equal, and no result at all if `path` does not lie
/// under `root`.
pub open spec fn relative_to(path: Seq<char>, root: Seq<char>) -> Option<Seq<char>> {
    if !root.is_prefix_of(path) {
        None
    } else if path.len() == root.len() {
        Some(Seq::<char>::empty())
    } else if root.len() > 0 && is_separator(root.last()) {
        Some(path.skip(root.len() as int))
    } else if is_separator(path[root.len() as int]) {
        Some(path.skip(root.len() as int + 1))
    } else {
        None
    }
}

/// The characters from `start` up to `end` are one whole segment of `path`: they hold no
/// separator, and a separator or an end of the path stands on either side.
pub open spec fn is_segment(path: Seq<char>, start: int, end: int) -> bool {
    &&& 0 <= start <= end <= path.len()
    &&& start == 0 || is_separator(path[start - 1])
    &&& end == path.len() || is_separator(path[end])
    &&& forall|k: int| start <= k < end ==> !is_separator(#[trigger] path[k])
}

/// Some segment of `path` is one of `names`.
pub open spec fn has_segment_in(path: Seq<char>, names: Set<Seq<char>>) -> bool {
    exists|start: int, end: int|
        is_segment(path, start, end) && names.contains(#[trigger] path.subrange(start, end))
}

/// Where the last segment of `path` starts: after its last separator, or at its front.
pub open spec fn last_segment_start(path: Seq<char>) -> int {
    choose|start: int| is_segment(path, start, path.len() as int)
}

/// The last segment of `path`: the name of the entry that the path leads to.
pub open spec fn last_segment(path: Seq<char>) -> Seq<char> {
    path.skip(last_segment_start(path))
}

/// A segment is fixed by where it ends.
pub proof fn lemma_segment_start_unique(path: Seq<char>, a: int, b: int, end: int)
    requires
        is_segment(path, a, end),
        is_segment(path, b, end),
    ensures
        a == b,
{
    if a < b {
        assert(is_separator(path[b - 1]));
    } else if b < a {
        assert(is_separator(path[a - 1]));
    }
}

/// The characters of a string, one by one.
pub fn chars_of(s: &str) -> (v: Vec<char>)
    ensures
        v@ == s@,
{
    let mut v: Vec<char> = Vec::new();
    for c in it: s.chars()
        invariant
            it.seq() == s@,
            v@ == it.seq().take(it.index()),
    {
        v.push(c);
        assert(it.seq().take(it.index() + 1) =~= it.seq().take(it.index()).push(c));
    }
    assert(s@.take(s@.len() as int) =~= s@);
    v
}

/// Takes `root` and the separator after it off the front of `path`.
pub fn strip_root<'a>(path: &'a str, root: &str) -> (r: Option<&'a str>)
    ensures
        match r {
            Some(rest) => relative_to(path@, root@) == Some(rest@),
            None => relative_to(path@, root@) is None,
        },
{
    let p = chars_of(path);
    let r = chars_of(root);
    if r.len() > p.len() {
        return None;
    }
    let mut k: usize = 0;
    while k < r.len()
        invariant
            0 <= k <= r.len() <= p.len(),
            p@ == path@,
            r@ == root@,
            forall|t: int| 0 <= t < k ==> p@[t] == r@[t],
        decreases r.len() - k,
    {
        if p[k] != r[k] {
            proof {
                if root@.is_prefix_of(path@) {
                    assert(path@.subrange(0, root@.len() as int)[k as int] == root@[k as int]);
                }
            }
            return None;
        }
        k += 1;
    }
    assert(root@ =~= path@.subrange(0, root@.len() as int));
    let n = p.len();
    if n == r.len() {
        let rest = path.substring_char(n, n);
        assert(rest@ =~= Seq::<char>::empty());
        Some(rest)
    } else if r.len() > 0 && r[r.len() - 1] == '/' {
        Some(path.substring_char(r.len(), n))
    } else if p[r.len()] == '/' {
        Some(path.substring_char(r.len() + 1, n))
    } else {
        None
    }
}

/// Whether some segment of `path` is a name of `ignore`.
pub fn has_ignored_segment(path: &str, ignore: &IgnoreSet) -> (r: bool)
    ensures
        r == has_segment_in(path@, ignore@),
{
    let p = chars_of(path);
    let n = p.len();
    let mut start: usize = 0;
    let mut k: usize = 0;
    while k < n
        invariant
            0 <= start <= k <= n,
            n == p.len(),
            p@ == path@,
            start == 0 || is_separator(p@[start - 1]),
            forall|t: int| start <= t < k ==> !is_separator(#[trigger] p@[t]),
            forall|a: int, b: int|
                is_segment(p@, a, b) && b < k ==> !ignore@.contains(#[trigger] p@.subrange(a, b)),
        decreases n - k,
    {
        if p[k] == '/' {
            assert(is_segment(p@, start as int, k as int));
            let segment = path.substring_char(start, k);
            if ignore.contains(segment) {
                return true;
            }
            proof {
                assert forall|a: int, b: int| is_segment(p@, a, b) && b < k + 1 implies !ignore@.contains(
                    #[trigger] p@.subrange(a, b),
                ) by {
                    if b == k {
                        lemma_segment_start_unique(p@, a, start as int, k as int);
                    }
                }
            }
            start = k + 1;
        }
        k += 1;
    }
    assert(is_segment(p@, start as int, n as int));
    let segment = path.substring_char(start, n);
    if ignore.contains(segment) {
        return true;
    }
    proof {
        assert forall|a: int, b: int| is_segment(p@, a, b) implies !ignore@.contains(
            #[trigger] p@.subrange(a, b),
        ) by {
            if b == n {
                lemma_segment_start_unique(p@, a, start as int, n as int);
            }
        }
    }
    false
}

/// The last segment of `path`.
pub fn last_segment_of<'a>(path: &'a str) -> (r: &'a str)
    ensures
        r@ == last_segment(path@),
{
    let p = chars_of(path);
    let n = p.len();
    let mut start: usize = n;
    while start > 0 && p[start - 1] != '/'
        invariant
            0 <= start <= n,
            n == p.len(),
            p@ == path@,
            forall|t: int| start <= t < n ==> !is_separator(#[trigger] p@[t]),
        decreases start,
    {
        start -= 1;
    }
    proof {
        assert(is_segment(path@, start as int, n as int));
        lemma_segment_start_unique(path@, start as int, last_segment_start(path@), n as int);
    }
    path.substring_char(start, n)
}

} // verus!
