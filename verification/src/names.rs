//! File-name logic shared by the traversal and the two actions: the exclusion
//! predicate that prunes subtrees, membership in a target-name set, and the
//! sibling temporary-file name used by the atomic rewrite.
use vstd::prelude::*;

verus! {

/// A name is excluded from the walk when it is hidden (starts with `.`) or is
/// the conventional build-output directory name.
pub open spec fn excluded_name(n: Seq<char>) -> bool {
    (n.len() > 0 && n[0] == '.') || n == "target"@
}

/// The view of a list of names, one sequence of characters per entry.
pub open spec fn names_view(v: Seq<String>) -> Seq<Seq<char>> {
    Seq::new(v.len(), |i: int| v[i]@)
}

/// `n` is one of the names in `ts`.
pub open spec fn name_in_set(ts: Seq<Seq<char>>, n: Seq<char>) -> bool {
    exists|k: int| 0 <= k < ts.len() && ts[k] == n
}

/// Character-by-character string equality.
pub fn str_eq(a: &str, b: &str) -> (r: bool)
    ensures
        r == (a@ == b@),
{
    let alen = a.unicode_len();
    let blen = b.unicode_len();
    if alen != blen {
        return false;
    }
    let mut i: usize = 0;
    while i < alen
        invariant
            0 <= i <= alen,
            alen == a@.len() == b@.len(),
            forall|j: int| 0 <= j < i ==> a@[j] == b@[j],
        decreases alen - i,
    {
        if a.get_char(i) != b.get_char(i) {
            return false;
        }
        i = i + 1;
    }
    proof {
        assert(a@ =~= b@);
    }
    true
}

/// Decides whether the walk must prune the entry of this name.
pub fn is_excluded(name: &str) -> (r: bool)
    ensures
        r == excluded_name(name@),
{
    if name.unicode_len() > 0 && name.get_char(0) == '.' {
        return true;
    }
    str_eq(name, "target")
}

/// Decides whether this name is one of the walk's target file names.
pub fn name_in(targets: &Vec<String>, name: &str) -> (r: bool)
    ensures
        r == name_in_set(names_view(targets@), name@),
{
    let mut k: usize = 0;
    while k < targets.len()
        invariant
            0 <= k <= targets@.len(),
            forall|j: int| 0 <= j < k ==> names_view(targets@)[j] != name@,
        decreases targets@.len() - k,
    {
        if str_eq(targets[k].as_str(), name) {
            proof {
                assert(names_view(targets@)[k as int] == name@);
            }
            return true;
        }
        k = k + 1;
    }
    false
}

/// The position of the last `.` of a file name that separates an extension:
/// a leading dot marks a hidden name, not an extension, so position 0 never
/// counts; -1 when the name has no extension.
pub open spec fn last_dot(n: Seq<char>) -> int
    decreases n.len(),
{
    if n.len() <= 1 {
        -1
    } else if n[n.len() - 1] == '.' {
        n.len() - 1
    } else {
        last_dot(n.drop_last())
    }
}

pub proof fn lemma_last_dot(n: Seq<char>)
    ensures
        last_dot(n) == -1 || 1 <= last_dot(n) < n.len(),
        last_dot(n) >= 1 ==> n[last_dot(n)] == '.',
        forall|j: int| last_dot(n) < j < n.len() && j >= 1 ==> n[j] != '.',
    decreases n.len(),
{
    if n.len() > 1 && n[n.len() - 1] != '.' {
        lemma_last_dot(n.drop_last());
        assert forall|j: int| last_dot(n) < j < n.len() && j >= 1 implies n[j] != '.' by {
            if j < n.len() - 1 {
                assert(n.drop_last()[j] != '.');
                assert(n.drop_last()[j] == n[j]);
            }
        }
    }
}

pub proof fn lemma_last_dot_is(n: Seq<char>, x: int)
    requires
        x == -1 || 1 <= x < n.len(),
        x >= 1 ==> n[x] == '.',
        forall|j: int| x < j < n.len() && j >= 1 ==> n[j] != '.',
    ensures
        last_dot(n) == x,
{
    lemma_last_dot(n);
    let r = last_dot(n);
    if r < x {
        assert(n[x] != '.');
    }
    if r > x {
        assert(n[r] != '.');
    }
}

/// The name of the temporary sibling the rewriter writes before the atomic
/// rename: the matched file's name with its extension replaced by the tool's
/// own extension.
pub open spec fn spec_temp_name(n: Seq<char>) -> Seq<char> {
    if last_dot(n) >= 1 {
        n.take(last_dot(n)) + ".cargo-all"@
    } else {
        n + ".cargo-all"@
    }
}

/// Computes the temporary sibling file name for a matched file name.
pub fn temp_name(name: &str) -> (r: String)
    ensures
        r@ == spec_temp_name(name@),
{
    let len = name.unicode_len();
    let mut j: usize = len;
    while j > 1
        invariant
            j <= len,
            len == name@.len(),
            forall|m: int| j <= m < len ==> name@[m] != '.',
        decreases j,
    {
        j = j - 1;
        if name.get_char(j) == '.' {
            proof {
                lemma_last_dot_is(name@, j as int);
            }
            let stem = name.substring_char(0, j);
            let mut r = stem.to_owned();
            r.append(".cargo-all");
            proof {
                assert(name@.take(j as int) == stem@);
            }
            return r;
        }
    }
    proof {
        lemma_last_dot_is(name@, -1);
    }
    let mut r = name.to_owned();
    r.append(".cargo-all");
    r
}

} // verus!
