//! The traversal engine, modelled over an in-memory directory tree: a
//! depth-first descent that prunes excluded subtrees before entering them and
//! collects the path of every entry whose name is in the target set.
//!
//! A real run drives the same per-entry decision (`decide_entry`) over a live
//! directory iterator; `walk_tree` is the engine on the tree model, and the
//! lemmas here state the two walk guarantees: nothing inside a pruned subtree
//! is ever matched, and every reachable target is matched exactly once.
use vstd::prelude::*;

use crate::names::{excluded_name, is_excluded, name_in, name_in_set, names_view};

verus! {

/// One filesystem node: its name and the nodes inside it. A file is a leaf.
pub struct TreeNode {
    pub name: String,
    pub children: Vec<TreeNode>,
}

/// A path is a sequence of node names, from the walk root down.
pub open spec fn path_view(p: Seq<String>) -> Seq<Seq<char>> {
    names_view(p)
}

/// The view of a collection of paths.
pub open spec fn paths_view(v: Seq<Vec<String>>) -> Seq<Seq<Seq<char>>> {
    Seq::new(v.len(), |i: int| path_view(v[i]@))
}

/// A real directory never holds two entries of the same name; this holds at
/// every level of a well-formed tree.
pub open spec fn wf_tree(t: TreeNode) -> bool
    decreases t,
{
    &&& forall|i: int, j: int|
        0 <= i < j < t.children.len() ==> t.children[i].name@ != t.children[j].name@
    &&& forall|i: int| 0 <= i < t.children.len() ==> wf_tree(#[trigger] t.children[i])
}

/// The paths the walk hands to the action, in walk order, each relative to
/// the walk root and starting with the root's own name: an excluded node ends
/// the descent before the node is even read, any other node is matched when
/// its name is a target, and its children follow.
pub open spec fn match_paths(t: TreeNode, targets: Seq<Seq<char>>) -> Seq<Seq<Seq<char>>>
    decreases t, 1int, 0int,
{
    if excluded_name(t.name@) {
        Seq::empty()
    } else {
        let own = if name_in_set(targets, t.name@) {
            seq![seq![t.name@]]
        } else {
            Seq::<Seq<Seq<char>>>::empty()
        };
        own + children_match_paths(t, 0, targets)
    }
}

/// Every path in `ps`, prefixed with the name `n`.
pub open spec fn prepend_name(n: Seq<char>, ps: Seq<Seq<Seq<char>>>) -> Seq<Seq<Seq<char>>> {
    ps.map_values(|p: Seq<Seq<char>>| seq![n] + p)
}

/// The matches inside children `i..` of a non-excluded node, each prefixed
/// with the node's own name.
pub open spec fn children_match_paths(t: TreeNode, i: int, targets: Seq<Seq<char>>) -> Seq<
    Seq<Seq<char>>,
>
    decreases t, 0int, t.children.len() - i,
{
    if 0 <= i < t.children.len() {
        prepend_name(t.name@, match_paths(t.children[i], targets)) + children_match_paths(
            t,
            i + 1,
            targets,
        )
    } else {
        Seq::empty()
    }
}

/// `p` leads from the root of `t` to a node of `t`.
pub open spec fn is_node_path(t: TreeNode, p: Seq<Seq<char>>) -> bool
    decreases t,
{
    p.len() >= 1 && p[0] == t.name@ && (p.len() == 1 || exists|i: int|
        0 <= i < t.children.len() && is_node_path(#[trigger] t.children[i], p.skip(1)))
}

/// The traversal engine on the tree model: walks `t` depth first, prunes every
/// excluded subtree, and returns the path of every match, relative to the
/// root of `t`.
pub fn walk_tree(t: &TreeNode, targets: &Vec<String>) -> (out: Vec<Vec<String>>)
    ensures
        paths_view(out@) == match_paths(*t, names_view(targets@)),
    decreases *t,
{
    let ghost gtargets = names_view(targets@);
    let mut out: Vec<Vec<String>> = Vec::new();
    if is_excluded(t.name.as_str()) {
        proof {
            assert(paths_view(out@) =~~= match_paths(*t, gtargets));
        }
        return out;
    }
    if name_in(targets, t.name.as_str()) {
        let mut own: Vec<String> = Vec::new();
        own.push(t.name.clone());
        out.push(own);
    }
    let ghost own_part = if name_in_set(gtargets, t.name@) {
        seq![seq![t.name@]]
    } else {
        Seq::<Seq<Seq<char>>>::empty()
    };
    proof {
        assert(paths_view(out@) =~~= own_part);
    }
    let mut i: usize = 0;
    while i < t.children.len()
        invariant
            0 <= i <= t.children@.len(),
            !excluded_name(t.name@),
            gtargets == names_view(targets@),
            paths_view(out@) =~= own_part + children_up_to(*t, i as int, gtargets),
        decreases t.children@.len() - i,
    {
        let sub = walk_tree(&t.children[i], targets);
        let ghost sub_view = match_paths(t.children@[i as int], gtargets);
        let mut k: usize = 0;
        while k < sub.len()
            invariant
                0 <= k <= sub@.len(),
                paths_view(sub@) == sub_view,
                paths_view(out@) =~= own_part + children_up_to(*t, i as int, gtargets)
                    + prepend_name(t.name@, sub_view).take(k as int),
            decreases sub@.len() - k,
        {
            let mut full: Vec<String> = Vec::new();
            full.push(t.name.clone());
            let tail: &Vec<String> = &sub[k];
            let mut m: usize = 0;
            while m < tail.len()
                invariant
                    0 <= m <= tail@.len(),
                    full@.len() == m + 1,
                    full@[0]@ == t.name@,
                    forall|j: int| 0 <= j < m ==> full@[j + 1]@ == tail@[j]@,
                decreases tail@.len() - m,
            {
                full.push(tail[m].clone());
                m = m + 1;
            }
            proof {
                assert(path_view(full@) =~= seq![t.name@] + path_view(sub@[k as int]@));
            }
            let ghost prev = out@;
            out.push(full);
            proof {
                assert(sub_view[k as int] == path_view(sub@[k as int]@));
                assert(prepend_name(t.name@, sub_view)[k as int] == seq![t.name@]
                    + sub_view[k as int]);
                assert(path_view(full@) == prepend_name(t.name@, sub_view)[k as int]);
                let goal = own_part + children_up_to(*t, i as int, gtargets) + prepend_name(
                    t.name@,
                    sub_view,
                ).take(k as int + 1);
                assert(out@ == prev.push(full));
                assert(paths_view(out@).len() == prev.len() + 1);
                assert(paths_view(prev).len() == own_part.len() + children_up_to(
                    *t,
                    i as int,
                    gtargets,
                ).len() + k);
                assert(sub_view.len() == sub@.len());
                assert(prepend_name(t.name@, sub_view).take(k as int + 1).len() == k + 1);
                assert(paths_view(out@).len() == goal.len());
                assert forall|j: int| 0 <= j < goal.len() implies paths_view(out@)[j] == goal[j] by {
                    if j < prev.len() {
                        assert(out@[j] == prev[j]);
                        assert(paths_view(prev)[j] == path_view(prev[j]@));
                    } else {
                        assert(out@[j] == full);
                    }
                }
                assert(paths_view(out@) =~= own_part + children_up_to(*t, i as int, gtargets)
                    + prepend_name(t.name@, sub_view).take(k as int + 1));
            }
            k = k + 1;
        }
        proof {
            assert(prepend_name(t.name@, sub_view).take(sub_view.len() as int) =~= prepend_name(
                t.name@,
                sub_view,
            ));
            lemma_children_up_to_step(*t, i as int, gtargets);
            assert(paths_view(out@) =~~= own_part + children_up_to(*t, i as int + 1, gtargets));
        }
        i = i + 1;
    }
    proof {
        lemma_children_up_to_all(*t, 0, gtargets);
        assert(paths_view(out@) =~~= match_paths(*t, gtargets));
    }
    out
}

/// The matches contributed by children `0..i` of a non-excluded node.
spec fn children_up_to(t: TreeNode, i: int, targets: Seq<Seq<char>>) -> Seq<
    Seq<Seq<char>>,
>
    decreases i,
{
    if i <= 0 {
        Seq::empty()
    } else {
        children_up_to(t, i - 1, targets) + (if i - 1 < t.children.len() {
            prepend_name(t.name@, match_paths(t.children[i - 1], targets))
        } else {
            Seq::empty()
        })
    }
}

proof fn lemma_children_up_to_step(t: TreeNode, i: int, targets: Seq<Seq<char>>)
    requires
        0 <= i < t.children.len(),
    ensures
        children_up_to(t, i + 1, targets) == children_up_to(t, i, targets) + prepend_name(
            t.name@,
            match_paths(t.children[i], targets),
        ),
{
}

/// Children `0..len` counted from the front equal the recursion from the back.
proof fn lemma_children_up_to_all(t: TreeNode, i: int, targets: Seq<Seq<char>>)
    requires
        0 <= i <= t.children.len(),
    ensures
        children_up_to(t, t.children.len() as int, targets) =~= children_up_to(t, i, targets)
            + children_match_paths(t, i, targets),
    decreases t.children.len() - i,
{
    if i < t.children.len() {
        lemma_children_up_to_all(t, i + 1, targets);
        lemma_children_up_to_step(t, i, targets);
        assert(children_up_to(t, i, targets) + children_match_paths(t, i, targets)
            =~= children_up_to(t, i + 1, targets) + children_match_paths(t, i + 1, targets));
    }
}

/// A single walk decision for one directory entry, by its file name: prune
/// the subtree, invoke the action on the entry, or keep walking.
#[derive(Clone, Copy, Debug, PartialEq, Eq, Structural)]
pub enum WalkDecision {
    Prune,
    Act,
    Ignore,
}

/// What the walk does with an entry of the given name.
pub open spec fn spec_decide(name: Seq<char>, targets: Seq<Seq<char>>) -> WalkDecision {
    if excluded_name(name) {
        WalkDecision::Prune
    } else if name_in_set(targets, name) {
        WalkDecision::Act
    } else {
        WalkDecision::Ignore
    }
}

/// The per-entry decision a live directory walk applies to every entry it
/// yields: exclusion is tested first, so an excluded entry is pruned even
/// when its name is also a target.
pub fn decide_entry(name: &str, targets: &Vec<String>) -> (d: WalkDecision)
    ensures
        d == spec_decide(name@, names_view(targets@)),
{
    if is_excluded(name) {
        WalkDecision::Prune
    } else if name_in(targets, name) {
        WalkDecision::Act
    } else {
        WalkDecision::Ignore
    }
}

/// `q` is a path the walk must act on: it leads to a node of the tree, the
/// node's name is a target, and no component anywhere on the path -- the
/// matched name included -- is excluded.
pub open spec fn matching_path(t: TreeNode, targets: Seq<Seq<char>>, q: Seq<Seq<char>>) -> bool {
    &&& is_node_path(t, q)
    &&& name_in_set(targets, q.last())
    &&& forall|j: int| 0 <= j < q.len() ==> !excluded_name(q[j])
}

proof fn lemma_add_contains<A>(a: Seq<A>, b: Seq<A>, x: A)
    ensures
        (a + b).contains(x) <==> a.contains(x) || b.contains(x),
{
    if a.contains(x) {
        let k = choose|k: int| 0 <= k < a.len() && a[k] == x;
        assert((a + b)[k] == x);
    }
    if b.contains(x) {
        let k = choose|k: int| 0 <= k < b.len() && b[k] == x;
        assert((a + b)[a.len() + k] == x);
    }
    if (a + b).contains(x) {
        let k = choose|k: int| 0 <= k < (a + b).len() && (a + b)[k] == x;
        if k < a.len() {
            assert(a[k] == x);
        } else {
            assert(b[k - a.len()] == x);
        }
    }
}

proof fn lemma_prepend_contains(n: Seq<char>, ps: Seq<Seq<Seq<char>>>, q: Seq<Seq<char>>)
    ensures
        prepend_name(n, ps).contains(q) <==> (q.len() >= 1 && q[0] == n && ps.contains(q.skip(1))),
{
    if prepend_name(n, ps).contains(q) {
        let k = choose|k: int| 0 <= k < ps.len() && prepend_name(n, ps)[k] == q;
        assert(q == seq![n] + ps[k]);
        assert(q.skip(1) =~= ps[k]);
    }
    if q.len() >= 1 && q[0] == n && ps.contains(q.skip(1)) {
        let k = choose|k: int| 0 <= k < ps.len() && ps[k] == q.skip(1);
        assert(prepend_name(n, ps)[k] == seq![n] + ps[k]);
        assert(seq![n] + q.skip(1) =~= q);
        assert(prepend_name(n, ps).contains(q));
    }
}

proof fn lemma_children_match_iff(t: TreeNode, i: int, targets: Seq<Seq<char>>, q: Seq<Seq<char>>)
    requires
        0 <= i <= t.children.len(),
    ensures
        children_match_paths(t, i, targets).contains(q) <==> (q.len() >= 2 && q[0] == t.name@
            && exists|c: int|
            i <= c < t.children.len() && #[trigger] match_paths(t.children[c], targets).contains(
                q.skip(1),
            )),
    decreases t, 0int, t.children.len() - i,
{
    if i == t.children.len() {
        assert(!children_match_paths(t, i, targets).contains(q));
    } else {
        let head = prepend_name(t.name@, match_paths(t.children[i], targets));
        let rest = children_match_paths(t, i + 1, targets);
        lemma_add_contains(head, rest, q);
        lemma_prepend_contains(t.name@, match_paths(t.children[i], targets), q);
        lemma_children_match_iff(t, i + 1, targets, q);
        if head.contains(q) {
            lemma_match_paths_iff(t.children[i], targets, q.skip(1));
            assert(q.skip(1).len() >= 1);
            assert(match_paths(t.children[i], targets).contains(q.skip(1)));
        }
        if q.len() >= 2 && q[0] == t.name@ && exists|c: int|
            i <= c < t.children.len() && #[trigger] match_paths(t.children[c], targets).contains(
                q.skip(1),
            ) {
            let c = choose|c: int|
                i <= c < t.children.len() && #[trigger] match_paths(
                    t.children[c],
                    targets,
                ).contains(q.skip(1));
            if c == i {
                assert(head.contains(q));
            } else {
                assert(rest.contains(q));
            }
            assert((head + rest).contains(q));
        }
    }
}

/// The two walk guarantees in one statement. Soundness covers the exclusion
/// invariant: a path is produced only if none of its components -- so in
/// particular no ancestor directory -- is hidden or a build-output directory.
/// Completeness covers the matching side: every target-named node not under
/// an excluded component is produced.
pub proof fn lemma_match_paths_iff(t: TreeNode, targets: Seq<Seq<char>>, q: Seq<Seq<char>>)
    ensures
        match_paths(t, targets).contains(q) <==> matching_path(t, targets, q),
    decreases t, 1int, 0int,
{
    if excluded_name(t.name@) {
        assert(!match_paths(t, targets).contains(q));
        if matching_path(t, targets, q) {
            assert(q[0] == t.name@);
            assert(!excluded_name(q[0]));
        }
    } else {
        let own = if name_in_set(targets, t.name@) {
            seq![seq![t.name@]]
        } else {
            Seq::<Seq<Seq<char>>>::empty()
        };
        let rest = children_match_paths(t, 0, targets);
        lemma_add_contains(own, rest, q);
        lemma_children_match_iff(t, 0, targets, q);
        if own.contains(q) {
            assert(q == seq![t.name@]);
            assert(matching_path(t, targets, q));
        }
        if rest.contains(q) {
            let c = choose|c: int|
                0 <= c < t.children.len() && #[trigger] match_paths(
                    t.children[c],
                    targets,
                ).contains(q.skip(1));
            lemma_match_paths_iff(t.children[c], targets, q.skip(1));
            assert(matching_path(t.children[c], targets, q.skip(1)));
            assert(q.skip(1).last() == q.last());
            assert forall|j: int| 0 <= j < q.len() implies !excluded_name(q[j]) by {
                if j >= 1 {
                    assert(!excluded_name(q.skip(1)[j - 1]));
                }
            }
            assert(is_node_path(t, q));
            assert(matching_path(t, targets, q));
        }
        if matching_path(t, targets, q) {
            if q.len() == 1 {
                assert(q =~= seq![t.name@]);
                assert(name_in_set(targets, t.name@));
                assert(own[0] == q);
                assert(own.contains(q));
            } else {
                let c = choose|c: int|
                    0 <= c < t.children.len() && is_node_path(
                        #[trigger] t.children[c],
                        q.skip(1),
                    );
                lemma_match_paths_iff(t.children[c], targets, q.skip(1));
                assert(q.skip(1).last() == q.last());
                assert forall|j: int| 0 <= j < q.skip(1).len() implies !excluded_name(
                    q.skip(1)[j],
                ) by {
                    assert(q.skip(1)[j] == q[j + 1]);
                }
                assert(matching_path(t.children[c], targets, q.skip(1)));
                assert(match_paths(t.children[c], targets).contains(q.skip(1)));
                assert(rest.contains(q));
            }
        }
    }
}

proof fn lemma_no_dup_concat<A>(a: Seq<A>, b: Seq<A>)
    requires
        a.no_duplicates(),
        b.no_duplicates(),
        forall|x: A| !(#[trigger] a.contains(x) && b.contains(x)),
    ensures
        (a + b).no_duplicates(),
{
    assert forall|i: int, j: int|
        0 <= i < (a + b).len() && 0 <= j < (a + b).len() && i != j implies (a + b)[i] != (a
        + b)[j] by {
        if i < a.len() && j >= a.len() {
            assert(a.contains(a[i]));
            if (a + b)[i] == (a + b)[j] {
                assert(b.contains(a[i]));
            }
        }
        if j < a.len() && i >= a.len() {
            assert(a.contains(a[j]));
            if (a + b)[i] == (a + b)[j] {
                assert(b.contains(a[j]));
            }
        }
    }
}

proof fn lemma_prepend_no_dup(n: Seq<char>, ps: Seq<Seq<Seq<char>>>)
    requires
        ps.no_duplicates(),
    ensures
        prepend_name(n, ps).no_duplicates(),
{
    assert forall|i: int, j: int|
        0 <= i < ps.len() && 0 <= j < ps.len() && i != j implies prepend_name(n, ps)[i]
        != prepend_name(n, ps)[j] by {
        if prepend_name(n, ps)[i] == prepend_name(n, ps)[j] {
            assert((seq![n] + ps[i]).skip(1) =~= ps[i]);
            assert((seq![n] + ps[j]).skip(1) =~= ps[j]);
            assert(ps[i] == ps[j]);
        }
    }
}

proof fn lemma_children_no_dup(t: TreeNode, i: int, targets: Seq<Seq<char>>)
    requires
        wf_tree(t),
        0 <= i <= t.children.len(),
    ensures
        children_match_paths(t, i, targets).no_duplicates(),
    decreases t, 0int, t.children.len() - i,
{
    if i < t.children.len() {
        let head = prepend_name(t.name@, match_paths(t.children[i], targets));
        let rest = children_match_paths(t, i + 1, targets);
        lemma_match_paths_no_duplicates(t.children[i], targets);
        lemma_prepend_no_dup(t.name@, match_paths(t.children[i], targets));
        lemma_children_no_dup(t, i + 1, targets);
        assert forall|x: Seq<Seq<char>>| !(#[trigger] head.contains(x) && rest.contains(x)) by {
            if head.contains(x) && rest.contains(x) {
                lemma_prepend_contains(t.name@, match_paths(t.children[i], targets), x);
                lemma_match_paths_iff(t.children[i], targets, x.skip(1));
                assert(x.skip(1)[0] == t.children[i].name@);
                lemma_children_match_iff(t, i + 1, targets, x);
                let c = choose|c: int|
                    i + 1 <= c < t.children.len() && #[trigger] match_paths(
                        t.children[c],
                        targets,
                    ).contains(x.skip(1));
                lemma_match_paths_iff(t.children[c], targets, x.skip(1));
                assert(x.skip(1)[0] == t.children[c].name@);
                assert(t.children[i].name@ != t.children[c].name@);
            }
        }
        lemma_no_dup_concat(head, rest);
    }
}

/// The walk acts on a matching path exactly once: over a well-formed tree
/// (no directory holds two entries of one name) the produced paths are
/// pairwise distinct.
pub proof fn lemma_match_paths_no_duplicates(t: TreeNode, targets: Seq<Seq<char>>)
    requires
        wf_tree(t),
    ensures
        match_paths(t, targets).no_duplicates(),
    decreases t, 1int, 0int,
{
    if !excluded_name(t.name@) {
        let own = if name_in_set(targets, t.name@) {
            seq![seq![t.name@]]
        } else {
            Seq::<Seq<Seq<char>>>::empty()
        };
        let rest = children_match_paths(t, 0, targets);
        lemma_children_no_dup(t, 0, targets);
        assert forall|x: Seq<Seq<char>>| !(#[trigger] own.contains(x) && rest.contains(x)) by {
            if own.contains(x) && rest.contains(x) {
                lemma_children_match_iff(t, 0, targets, x);
                assert(x == seq![t.name@]);
            }
        }
        lemma_no_dup_concat(own, rest);
    }
}

/// The exclusion invariant on its own: a path the walk produces never has an
/// excluded component, so nothing anywhere under a hidden directory or a
/// build-output directory is ever handed to the action.
pub proof fn lemma_walk_exclusion(t: TreeNode, targets: Seq<Seq<char>>, q: Seq<Seq<char>>)
    ensures
        match_paths(t, targets).contains(q) ==> forall|j: int|
            0 <= j < q.len() ==> !excluded_name(q[j]),
{
    lemma_match_paths_iff(t, targets, q);
}

} // verus!
