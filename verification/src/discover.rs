//! Discovery: the depth-bounded walk over a directory tree that collects
//! candidate projects. The tree is given to the library as plain data (a
//! [`DirTree`] per directory); the caller reads the real filesystem into
//! that shape.
use vstd::prelude::*;
use crate::{clone_path, Project, Status};

verus! {

/// One directory of a directory tree, as discovery sees it: its name,
/// whether a manifest file lies directly inside it, whether a
/// dependency-cache directory lies directly inside it, and its
/// subdirectories.
pub struct DirTree {
    pub name: String,
    pub has_manifest: bool,
    pub has_cache: bool,
    pub subdirs: Vec<DirTree>,
}

/// The candidate paths found under `t`, in traversal order, when `budget`
/// more path segments may still be read below the current directory: a
/// manifest file directly inside `t` is visible only when `budget >= 1`,
/// and a directory whose manifest is visible is never descended into.
/// `prefix` is the path of `t` itself.
pub open spec fn cand_seq(t: DirTree, budget: nat, prefix: Seq<Seq<char>>) -> Seq<Seq<Seq<char>>>
    decreases t, 1int, 0int,
{
    if budget == 0 {
        Seq::empty()
    } else if t.has_manifest {
        if t.has_cache {
            seq![prefix]
        } else {
            Seq::empty()
        }
    } else {
        cand_seq_children(t, (budget - 1) as nat, prefix, 0)
    }
}

/// The candidate paths found under the subdirectories `t.subdirs[i..]`.
pub open spec fn cand_seq_children(
    t: DirTree,
    budget: nat,
    prefix: Seq<Seq<char>>,
    i: int,
) -> Seq<Seq<Seq<char>>>
    decreases t, 0int, t.subdirs.len() - i,
{
    if i < 0 || i >= t.subdirs.len() {
        Seq::empty()
    } else {
        cand_seq(t.subdirs@[i], budget, prefix.push(t.subdirs@[i].name@)) + cand_seq_children(
            t,
            budget,
            prefix,
            i + 1,
        )
    }
}

/// The paths of a sequence of candidates, in the same order.
pub open spec fn paths_of(ps: Seq<Project>) -> Seq<Seq<Seq<char>>> {
    ps.map_values(|p: Project| p.path.deep_view())
}

/// Collect the candidates of the whole tree rooted at `root`, searching
/// `depth` path segments deep: exactly the paths of `cand_seq`, in
/// traversal order, every one with status `Waiting`. Over a well-formed
/// tree the result lists, each exactly once, precisely the paths that the
/// declarative predicate `is_candidate` admits.
pub fn discover(root: &DirTree, depth: usize) -> (r: Vec<Project>)
    ensures
        paths_of(r@) == cand_seq(*root, depth as nat, Seq::empty()),
        forall|i: int| 0 <= i < r@.len() ==> r@[i].status == Status::Waiting,
        wf(*root) ==> forall|p: Seq<Seq<char>>|
            paths_of(r@).contains(p) <==> #[trigger] is_candidate(*root, depth as nat, p),
        wf(*root) ==> paths_of(r@).no_duplicates(),
{
    let prefix: Vec<String> = Vec::new();
    let mut out: Vec<Project> = Vec::new();
    discover_node(root, depth, &prefix, &mut out);
    proof {
        assert(prefix.deep_view() =~= Seq::<Seq<char>>::empty());
        assert(paths_of(Seq::<Project>::empty()) =~= Seq::<Seq<Seq<char>>>::empty());
        assert(paths_of(out@) =~= cand_seq(*root, depth as nat, Seq::empty()));
        if wf(*root) {
            assert forall|p: Seq<Seq<char>>|
                paths_of(out@).contains(p) <==> #[trigger] is_candidate(
                    *root,
                    depth as nat,
                    p,
                ) by {
                lemma_discovery_exact(*root, depth as nat, p);
            }
            lemma_no_duplicate_candidates(*root, depth as nat);
        }
    }
    out
}

/// Append to `out` the candidates of the subtree rooted at `t`, whose own
/// path is `prefix`, with `budget` segments of depth left.
fn discover_node(t: &DirTree, budget: usize, prefix: &Vec<String>, out: &mut Vec<Project>)
    ensures
        paths_of(final(out)@) == paths_of(old(out)@) + cand_seq(*t, budget as nat, prefix.deep_view()),
        forall|i: int|
            0 <= i < final(out)@.len() ==> final(out)@[i].status == (
            if i < old(out)@.len() {
                old(out)@[i].status
            } else {
                Status::Waiting
            }),
    decreases *t, 1int, 0int,
{
    if budget == 0 {
        proof {
            assert(paths_of(out@) =~= paths_of(old(out)@) + cand_seq(
                *t,
                budget as nat,
                prefix.deep_view(),
            ));
        }
    } else if t.has_manifest {
        if t.has_cache {
            let p = Project::new(clone_path(prefix));
            proof {
                assert(p.path.deep_view() =~= prefix.deep_view());
            }
            out.push(p);
            proof {
                assert(paths_of(out@) =~= paths_of(old(out)@) + cand_seq(
                    *t,
                    budget as nat,
                    prefix.deep_view(),
                ));
            }
        } else {
            proof {
                assert(paths_of(out@) =~= paths_of(old(out)@) + cand_seq(
                    *t,
                    budget as nat,
                    prefix.deep_view(),
                ));
            }
        }
    } else {
        discover_children(t, budget - 1, prefix, 0, out);
    }
}

/// Append to `out` the candidates of the subdirectories `t.subdirs[i..]`,
/// where `prefix` is the path of `t` itself.
fn discover_children(
    t: &DirTree,
    budget: usize,
    prefix: &Vec<String>,
    i: usize,
    out: &mut Vec<Project>,
)
    requires
        i <= t.subdirs.len(),
    ensures
        paths_of(final(out)@) == paths_of(old(out)@) + cand_seq_children(
            *t,
            budget as nat,
            prefix.deep_view(),
            i as int,
        ),
        forall|j: int|
            0 <= j < final(out)@.len() ==> final(out)@[j].status == (
            if j < old(out)@.len() {
                old(out)@[j].status
            } else {
                Status::Waiting
            }),
    decreases *t, 0int, t.subdirs.len() - i,
{
    if i < t.subdirs.len() {
        let mut child_prefix = clone_path(prefix);
        let child = &t.subdirs[i];
        child_prefix.push(child.name.clone());
        proof {
            assert(child_prefix.deep_view() =~= prefix.deep_view().push(child.name@));
        }
        discover_node(child, budget, &child_prefix, out);
        discover_children(t, budget, prefix, i + 1, out);
        proof {
            assert(paths_of(out@) =~= paths_of(old(out)@) + cand_seq_children(
                *t,
                budget as nat,
                prefix.deep_view(),
                i as int,
            ));
        }
    } else {
        proof {
            assert(paths_of(out@) =~= paths_of(old(out)@) + cand_seq_children(
                *t,
                budget as nat,
                prefix.deep_view(),
                i as int,
            ));
        }
    }
}

/// Membership in a concatenation is membership in either part.
proof fn lemma_add_contains<A>(a: Seq<A>, b: Seq<A>, x: A)
    ensures
        (a + b).contains(x) <==> a.contains(x) || b.contains(x),
{
    if a.contains(x) {
        let k = choose|k: int| 0 <= k < a.len() && a[k] == x;
        assert((a + b)[k] == x);
    }
    if b.contains(x) {
        let k = choose|k: int| 0 <= k < b.len() && b[k] == x;
        assert((a + b)[a.len() + k] == x);
    }
    if (a + b).contains(x) {
        let k = choose|k: int| 0 <= k < (a + b).len() && (a + b)[k] == x;
        if k < a.len() {
            assert(a[k] == x);
        } else {
            assert(b[k - a.len()] == x);
        }
    }
}

/// Every candidate path of a subtree extends the subtree's own path.
proof fn lemma_member_extends(t: DirTree, budget: nat, prefix: Seq<Seq<char>>, x: Seq<Seq<char>>)
    requires
        cand_seq(t, budget, prefix).contains(x),
    ensures
        x.len() >= prefix.len(),
        x.take(prefix.len() as int) == prefix,
    decreases t, 1int, 0int,
{
    if budget == 0 {
        // nothing is found, so the premise is impossible
    } else if t.has_manifest {
        assert(x == prefix);
        assert(x.take(prefix.len() as int) =~= prefix);
    } else {
        lemma_member_extends_children(t, (budget - 1) as nat, prefix, 0, x);
    }
}

/// Every candidate path found under a subdirectory lies strictly below
/// the parent's path.
proof fn lemma_member_extends_children(
    t: DirTree,
    budget: nat,
    prefix: Seq<Seq<char>>,
    i: int,
    x: Seq<Seq<char>>,
)
    requires
        cand_seq_children(t, budget, prefix, i).contains(x),
    ensures
        x.len() > prefix.len(),
        x.take(prefix.len() as int) == prefix,
    decreases t, 0int, t.subdirs.len() - i,
{
    if 0 <= i < t.subdirs.len() {
        let child = t.subdirs@[i];
        let child_prefix = prefix.push(child.name@);
        lemma_add_contains(
            cand_seq(child, budget, child_prefix),
            cand_seq_children(t, budget, prefix, i + 1),
            x,
        );
        if cand_seq(child, budget, child_prefix).contains(x) {
            lemma_member_extends(child, budget, child_prefix, x);
            assert forall|m: int| 0 <= m < prefix.len() implies x.take(prefix.len() as int)[m]
                == prefix[m] by {
                assert(x.take(child_prefix.len() as int)[m] == child_prefix[m]);
            }
            assert(x.take(prefix.len() as int) =~= prefix);
        } else {
            lemma_member_extends_children(t, budget, prefix, i + 1, x);
        }
    }
}

/// Sibling directories all carry distinct names.
pub open spec fn sibling_names_unique(ts: Seq<DirTree>) -> bool {
    forall|a: int, b: int|
        0 <= a < b < ts.len() ==> (#[trigger] ts[a]).name@ != (#[trigger] ts[b]).name@
}

/// A well-formed tree names siblings uniquely at every level, as a real
/// filesystem does.
pub open spec fn wf(t: DirTree) -> bool
    decreases t,
{
    &&& sibling_names_unique(t.subdirs@)
    &&& forall|j: int| 0 <= j < t.subdirs@.len() ==> wf(#[trigger] t.subdirs@[j])
}

/// The subdirectory of `ts` named `n`, if any; the first one when several
/// share the name.
pub open spec fn child_named(ts: Seq<DirTree>, n: Seq<char>) -> Option<DirTree>
    decreases ts.len(),
{
    if ts.len() == 0 {
        None
    } else if ts[0].name@ == n {
        Some(ts[0])
    } else {
        child_named(ts.drop_first(), n)
    }
}

/// The directory reached from `t` by following the segments of `p`, if
/// every segment names a subdirectory on the way.
pub open spec fn subtree_at(t: DirTree, p: Seq<Seq<char>>) -> Option<DirTree>
    decreases p.len(),
{
    if p.len() == 0 {
        Some(t)
    } else {
        match child_named(t.subdirs@, p[0]) {
            Some(c) => subtree_at(c, p.drop_first()),
            None => None,
        }
    }
}

/// What it means, declaratively, for `p` to be a candidate of the tree
/// `t` searched `depth` segments deep: the directory at `p` exists and
/// directly contains both the manifest file and the cache directory, the
/// manifest lies no deeper than `depth` segments from the root, and no
/// directory strictly above `p` contains a manifest of its own.
pub open spec fn is_candidate(t: DirTree, depth: nat, p: Seq<Seq<char>>) -> bool {
    &&& p.len() < depth
    &&& (match subtree_at(t, p) {
        Some(d) => d.has_manifest && d.has_cache,
        None => false,
    })
    &&& (forall|k: int|
        0 <= k < p.len() ==> (match subtree_at(t, #[trigger] p.take(k)) {
            Some(a) => !a.has_manifest,
            None => false,
        }))
}

/// A found name comes with its index; a missing name misses every child.
proof fn lemma_child_named_index(ts: Seq<DirTree>, n: Seq<char>)
    ensures
        match child_named(ts, n) {
            Some(c) => exists|j: int|
                0 <= j < ts.len() && (#[trigger] ts[j]).name@ == n && ts[j] == c,
            None => forall|j: int| 0 <= j < ts.len() ==> (#[trigger] ts[j]).name@ != n,
        },
    decreases ts.len(),
{
    if ts.len() > 0 && ts[0].name@ != n {
        lemma_child_named_index(ts.drop_first(), n);
        match child_named(ts, n) {
            Some(c) => {
                let j = choose|j: int|
                    0 <= j < ts.drop_first().len() && (#[trigger] ts.drop_first()[j]).name@ == n
                        && ts.drop_first()[j] == c;
                assert(ts[j + 1].name@ == n && ts[j + 1] == c);
            },
            None => {
                assert forall|j: int| 0 <= j < ts.len() implies (#[trigger] ts[j]).name@ != n by {
                    if j > 0 {
                        assert(ts.drop_first()[j - 1].name@ != n);
                    }
                }
            },
        }
    }
}

/// With unique sibling names, looking a name up finds exactly the child
/// that carries it.
proof fn lemma_child_named_unique(ts: Seq<DirTree>, n: Seq<char>, j: int)
    requires
        sibling_names_unique(ts),
        0 <= j < ts.len(),
        ts[j].name@ == n,
    ensures
        child_named(ts, n) == Some(ts[j]),
    decreases ts.len(),
{
    if j > 0 {
        assert(ts[0].name@ != n);
        assert forall|a: int, b: int|
            0 <= a < b < ts.drop_first().len() implies (#[trigger] ts.drop_first()[a]).name@ != (
        #[trigger] ts.drop_first()[b]).name@ by {
            assert(ts[a + 1].name@ != ts[b + 1].name@);
        }
        lemma_child_named_unique(ts.drop_first(), n, j - 1);
    }
}

/// Peeling the first segment off the declarative candidate predicate:
/// below a manifest-free directory, `p` is a candidate exactly when its
/// first segment names a subdirectory of which the rest is a candidate.
proof fn lemma_is_candidate_unfold(t: DirTree, budget: nat, q: Seq<Seq<char>>)
    requires
        !t.has_manifest,
        budget >= 1,
        q.len() >= 1,
    ensures
        is_candidate(t, budget, q) <==> (match child_named(t.subdirs@, q[0]) {
            Some(c) => is_candidate(c, (budget - 1) as nat, q.drop_first()),
            None => false,
        }),
{
    let qdf = q.drop_first();
    match child_named(t.subdirs@, q[0]) {
        Some(c) => {
            assert(subtree_at(t, q) == subtree_at(c, qdf));
            if is_candidate(t, budget, q) {
                assert forall|k: int|
                    0 <= k < qdf.len() implies (match subtree_at(c, #[trigger] qdf.take(k)) {
                    Some(a) => !a.has_manifest,
                    None => false,
                }) by {
                    assert(q.take(k + 1).len() == k + 1);
                    assert(q.take(k + 1)[0] == q[0]);
                    assert(q.take(k + 1).drop_first() =~= qdf.take(k));
                    assert(subtree_at(t, q.take(k + 1)) == subtree_at(c, qdf.take(k)));
                }
                assert(is_candidate(c, (budget - 1) as nat, qdf));
            }
            if is_candidate(c, (budget - 1) as nat, qdf) {
                assert forall|k: int|
                    0 <= k < q.len() implies (match subtree_at(t, #[trigger] q.take(k)) {
                    Some(a) => !a.has_manifest,
                    None => false,
                }) by {
                    if k == 0 {
                        assert(q.take(0) =~= Seq::<Seq<char>>::empty());
                        assert(subtree_at(t, q.take(0)) == Some(t));
                    } else {
                        assert(q.take(k)[0] == q[0]);
                        assert(q.take(k).drop_first() =~= qdf.take(k - 1));
                        assert(subtree_at(t, q.take(k)) == subtree_at(c, qdf.take(k - 1)));
                    }
                }
                assert(is_candidate(t, budget, q));
            }
        },
        None => {
            assert(subtree_at(t, q) is None);
        },
    }
}

/// The walk finds `prefix + q` under `t` exactly when `q` is,
/// declaratively, a candidate of the subtree `t`.
proof fn lemma_char_rel(t: DirTree, budget: nat, prefix: Seq<Seq<char>>, q: Seq<Seq<char>>)
    requires
        wf(t),
    ensures
        cand_seq(t, budget, prefix).contains(prefix + q) <==> is_candidate(t, budget, q),
    decreases t, 1int, 0int,
{
    if budget == 0 {
        // nothing is found and no candidate fits a zero depth
    } else if t.has_manifest {
        if q.len() == 0 {
            assert(prefix + q =~= prefix);
            if t.has_cache {
                assert(cand_seq(t, budget, prefix)[0] == prefix);
                assert(cand_seq(t, budget, prefix).contains(prefix));
            }
        } else {
            if cand_seq(t, budget, prefix).contains(prefix + q) {
                assert(cand_seq(t, budget, prefix)[0] == prefix);
                assert((prefix + q).len() == prefix.len() + q.len());
                assert(false);
            }
            assert(q.take(0) =~= Seq::<Seq<char>>::empty());
            assert(subtree_at(t, q.take(0)) == Some(t));
            assert(!is_candidate(t, budget, q));
        }
    } else {
        let inner = (budget - 1) as nat;
        if q.len() == 0 {
            assert(prefix + q =~= prefix);
            if cand_seq_children(t, inner, prefix, 0).contains(prefix) {
                lemma_member_extends_children(t, inner, prefix, 0, prefix);
                assert(false);
            }
            assert(!is_candidate(t, budget, q));
        } else {
            lemma_char_rel_children(t, inner, prefix, 0, q);
            lemma_is_candidate_unfold(t, budget, q);
            lemma_child_named_index(t.subdirs@, q[0]);
            match child_named(t.subdirs@, q[0]) {
                Some(c) => {
                    let jc = choose|j: int|
                        0 <= j < t.subdirs@.len() && (#[trigger] t.subdirs@[j]).name@ == q[0]
                            && t.subdirs@[j] == c;
                    if is_candidate(c, inner, q.drop_first()) {
                        assert(0 <= jc < t.subdirs@.len() && t.subdirs@[jc].name@ == q[0]
                            && is_candidate(t.subdirs@[jc], inner, q.drop_first()));
                    }
                    if exists|j: int|
                        0 <= j < t.subdirs@.len() && (#[trigger] t.subdirs@[j]).name@ == q[0]
                            && is_candidate(t.subdirs@[j], inner, q.drop_first()) {
                        let j = choose|j: int|
                            0 <= j < t.subdirs@.len() && (#[trigger] t.subdirs@[j]).name@ == q[0]
                                && is_candidate(t.subdirs@[j], inner, q.drop_first());
                        lemma_child_named_unique(t.subdirs@, q[0], j);
                        assert(t.subdirs@[j] == c);
                    }
                },
                None => {
                },
            }
        }
    }
}

/// Membership of `prefix + q` in what the walk finds under the
/// subdirectories `t.subdirs[i..]`: some subdirectory is named by the
/// first segment of `q` and declares the rest a candidate.
proof fn lemma_char_rel_children(
    t: DirTree,
    budget: nat,
    prefix: Seq<Seq<char>>,
    i: int,
    q: Seq<Seq<char>>,
)
    requires
        wf(t),
        0 <= i,
    ensures
        cand_seq_children(t, budget, prefix, i).contains(prefix + q) <==> (q.len() >= 1
            && exists|j: int|
            i <= j < t.subdirs@.len() && (#[trigger] t.subdirs@[j]).name@ == q[0] && is_candidate(
                t.subdirs@[j],
                budget,
                q.drop_first(),
            )),
    decreases t, 0int, t.subdirs.len() - i,
{
    if i < t.subdirs.len() {
        let child = t.subdirs@[i];
        let child_prefix = prefix.push(child.name@);
        let first = cand_seq(child, budget, child_prefix);
        let rest = cand_seq_children(t, budget, prefix, i + 1);
        lemma_add_contains(first, rest, prefix + q);
        lemma_char_rel_children(t, budget, prefix, i + 1, q);

        // the first part holds exactly when this child is named q[0] and
        // declares the rest of q a candidate
        if first.contains(prefix + q) {
            lemma_member_extends(child, budget, child_prefix, prefix + q);
            assert((prefix + q).len() >= child_prefix.len());
            assert((prefix + q).take(child_prefix.len() as int)[prefix.len() as int]
                == child.name@);
            assert((prefix + q)[prefix.len() as int] == q[0]);
            assert(q[0] == child.name@);
            assert(prefix + q =~= child_prefix + q.drop_first());
            lemma_char_rel(child, budget, child_prefix, q.drop_first());
            assert(is_candidate(child, budget, q.drop_first()));
        }
        if q.len() >= 1 && child.name@ == q[0] && is_candidate(child, budget, q.drop_first()) {
            assert(prefix + q =~= child_prefix + q.drop_first());
            lemma_char_rel(child, budget, child_prefix, q.drop_first());
            assert(first.contains(prefix + q));
        }

        // combine the two parts into one existential over [i, len)
        if q.len() >= 1 && exists|j: int|
            i <= j < t.subdirs@.len() && (#[trigger] t.subdirs@[j]).name@ == q[0] && is_candidate(
                t.subdirs@[j],
                budget,
                q.drop_first(),
            ) {
            let j = choose|j: int|
                i <= j < t.subdirs@.len() && (#[trigger] t.subdirs@[j]).name@ == q[0]
                    && is_candidate(t.subdirs@[j], budget, q.drop_first());
            if j == i {
                assert(first.contains(prefix + q));
            }
        }
    }
}

/// Discovery is exact: over a well-formed tree, the walk finds precisely
/// the paths that the declarative candidate predicate admits — the
/// directories that directly contain both the manifest file and the
/// cache directory, within depth, below no other manifest.
pub proof fn lemma_discovery_exact(t: DirTree, depth: nat, p: Seq<Seq<char>>)
    requires
        wf(t),
    ensures
        cand_seq(t, depth, Seq::empty()).contains(p) <==> is_candidate(t, depth, p),
{
    lemma_char_rel(t, depth, Seq::empty(), p);
    assert(Seq::<Seq<char>>::empty() + p =~= p);
}

/// No candidate lies nested beneath another: of two distinct found
/// paths, the shorter is never a prefix of the longer.
pub proof fn lemma_no_nested_candidates(
    t: DirTree,
    depth: nat,
    p1: Seq<Seq<char>>,
    p2: Seq<Seq<char>>,
)
    requires
        wf(t),
        cand_seq(t, depth, Seq::empty()).contains(p1),
        cand_seq(t, depth, Seq::empty()).contains(p2),
        p1.len() < p2.len(),
    ensures
        p2.take(p1.len() as int) != p1,
{
    lemma_discovery_exact(t, depth, p1);
    lemma_discovery_exact(t, depth, p2);
    if p2.take(p1.len() as int) == p1 {
        // p1 would then stand strictly above p2, yet a candidate's
        // directory contains a manifest and an ancestor of one must not
        assert(match subtree_at(t, p2.take(p1.len() as int)) {
            Some(a) => !a.has_manifest,
            None => false,
        });
        assert(false);
    }
}

/// The depth bound is exact: every path the walk finds keeps its
/// manifest file within `budget` segments below the current directory.
pub proof fn lemma_depth_bound(t: DirTree, budget: nat, prefix: Seq<Seq<char>>)
    ensures
        forall|k: int|
            0 <= k < cand_seq(t, budget, prefix).len() ==> (#[trigger] cand_seq(
                t,
                budget,
                prefix,
            )[k]).len() < prefix.len() + budget,
    decreases t, 1int, 0int,
{
    if budget == 0 || t.has_manifest {
        // at most the current directory itself is found
        assert forall|k: int| 0 <= k < cand_seq(t, budget, prefix).len() implies (#[trigger] cand_seq(
            t,
            budget,
            prefix,
        )[k]).len() < prefix.len() + budget by {
            assert(cand_seq(t, budget, prefix)[k] == prefix);
        }
    } else {
        lemma_depth_bound_children(t, (budget - 1) as nat, prefix, 0);
        assert forall|k: int| 0 <= k < cand_seq(t, budget, prefix).len() implies (#[trigger] cand_seq(
            t,
            budget,
            prefix,
        )[k]).len() < prefix.len() + budget by {
            assert(cand_seq(t, budget, prefix)[k] == cand_seq_children(
                t,
                (budget - 1) as nat,
                prefix,
                0,
            )[k]);
        }
    }
}

/// Depth bound for the walk over the subdirectories `t.subdirs[i..]`.
proof fn lemma_depth_bound_children(t: DirTree, budget: nat, prefix: Seq<Seq<char>>, i: int)
    ensures
        forall|k: int|
            0 <= k < cand_seq_children(t, budget, prefix, i).len() ==> (#[trigger] cand_seq_children(
                t,
                budget,
                prefix,
                i,
            )[k]).len() < prefix.len() + 1 + budget,
    decreases t, 0int, t.subdirs.len() - i,
{
    if 0 <= i < t.subdirs.len() {
        let child = t.subdirs@[i];
        let child_prefix = prefix.push(child.name@);
        lemma_depth_bound(child, budget, child_prefix);
        lemma_depth_bound_children(t, budget, prefix, i + 1);
        assert forall|k: int|
            0 <= k < cand_seq_children(t, budget, prefix, i).len() implies (
        #[trigger] cand_seq_children(t, budget, prefix, i)[k]).len() < prefix.len() + 1 + budget by {
            let first = cand_seq(child, budget, child_prefix);
            if k < first.len() {
                assert(cand_seq_children(t, budget, prefix, i)[k] == first[k]);
            } else {
                assert(cand_seq_children(t, budget, prefix, i)[k] == cand_seq_children(
                    t,
                    budget,
                    prefix,
                    i + 1,
                )[k - first.len()]);
            }
        }
    }
}

/// Whether no directory of the tree contains a manifest file.
pub open spec fn manifest_free(t: DirTree) -> bool
    decreases t,
{
    &&& !t.has_manifest
    &&& forall|j: int| 0 <= j < t.subdirs@.len() ==> manifest_free(#[trigger] t.subdirs@[j])
}

/// A tree without manifest files yields no candidate at any depth.
pub proof fn lemma_empty_without_manifests(t: DirTree, budget: nat, prefix: Seq<Seq<char>>)
    requires
        manifest_free(t),
    ensures
        cand_seq(t, budget, prefix) === Seq::<Seq<Seq<char>>>::empty(),
    decreases t, 1int, 0int,
{
    if budget != 0 {
        lemma_empty_without_manifests_children(t, (budget - 1) as nat, prefix, 0);
    }
}

/// The same, walking the subdirectories `t.subdirs[i..]`.
proof fn lemma_empty_without_manifests_children(
    t: DirTree,
    budget: nat,
    prefix: Seq<Seq<char>>,
    i: int,
)
    requires
        manifest_free(t),
    ensures
        cand_seq_children(t, budget, prefix, i) === Seq::<Seq<Seq<char>>>::empty(),
    decreases t, 0int, t.subdirs.len() - i,
{
    if 0 <= i < t.subdirs.len() {
        let child = t.subdirs@[i];
        lemma_empty_without_manifests(child, budget, prefix.push(child.name@));
        lemma_empty_without_manifests_children(t, budget, prefix, i + 1);
        assert(cand_seq_children(t, budget, prefix, i) =~= Seq::<Seq<Seq<char>>>::empty());
    }
}

/// Discovery is deterministic, hence idempotent: two runs over the same
/// unmodified tree at the same depth return the same candidate paths, in
/// particular the same set of candidates.
pub proof fn lemma_discovery_idempotent(
    t: DirTree,
    depth: nat,
    r1: Seq<Project>,
    r2: Seq<Project>,
)
    requires
        paths_of(r1) == cand_seq(t, depth, Seq::empty()),
        paths_of(r2) == cand_seq(t, depth, Seq::empty()),
    ensures
        paths_of(r1) == paths_of(r2),
        paths_of(r1).to_set() == paths_of(r2).to_set(),
{
}

/// Concatenating duplicate-free sequences with no common member stays
/// duplicate-free.
proof fn lemma_add_no_duplicates<A>(a: Seq<A>, b: Seq<A>)
    requires
        a.no_duplicates(),
        b.no_duplicates(),
        forall|x: A| #[trigger] a.contains(x) ==> !b.contains(x),
    ensures
        (a + b).no_duplicates(),
{
    assert forall|i: int, j: int|
        0 <= i < (a + b).len() && 0 <= j < (a + b).len() && i != j implies (a + b)[i] != (a
        + b)[j] by {
        if i < a.len() && j >= a.len() {
            assert(a.contains(a[i]));
            if a[i] == b[j - a.len()] {
                assert(b.contains(b[j - a.len()]));
            }
        }
        if j < a.len() && i >= a.len() {
            assert(a.contains(a[j]));
            if a[j] == b[i - a.len()] {
                assert(b.contains(b[i - a.len()]));
            }
        }
    }
}

/// Over a well-formed tree, no candidate path is found twice.
proof fn lemma_no_dup_node(t: DirTree, budget: nat, prefix: Seq<Seq<char>>)
    requires
        wf(t),
    ensures
        cand_seq(t, budget, prefix).no_duplicates(),
    decreases t, 1int, 0int,
{
    if budget == 0 || t.has_manifest {
        // the result holds at most one path
    } else {
        lemma_no_dup_children(t, (budget - 1) as nat, prefix, 0);
    }
}

/// Under the subdirectories `t.subdirs[i..]` no path is found twice, and
/// every found path continues `prefix` with the name of one of those
/// subdirectories.
proof fn lemma_no_dup_children(t: DirTree, budget: nat, prefix: Seq<Seq<char>>, i: int)
    requires
        wf(t),
        0 <= i,
    ensures
        cand_seq_children(t, budget, prefix, i).no_duplicates(),
        forall|x: Seq<Seq<char>>| #[trigger]
            cand_seq_children(t, budget, prefix, i).contains(x) ==> x.len() > prefix.len()
                && (exists|j: int|
                i <= j < t.subdirs@.len() && x[prefix.len() as int] == (#[trigger] t.subdirs@[j]).name@),
    decreases t, 0int, t.subdirs.len() - i,
{
    if i < t.subdirs.len() {
        let child = t.subdirs@[i];
        let child_prefix = prefix.push(child.name@);
        let first = cand_seq(child, budget, child_prefix);
        let rest = cand_seq_children(t, budget, prefix, i + 1);
        lemma_no_dup_node(child, budget, child_prefix);
        lemma_no_dup_children(t, budget, prefix, i + 1);

        assert forall|x: Seq<Seq<char>>| #[trigger] first.contains(x) implies x.len()
            > prefix.len() && x[prefix.len() as int] == child.name@ by {
            lemma_member_extends(child, budget, child_prefix, x);
            assert(x.take(child_prefix.len() as int)[prefix.len() as int] == child.name@);
        }
        assert forall|x: Seq<Seq<char>>| #[trigger] first.contains(x) implies !rest.contains(
            x,
        ) by {
            if rest.contains(x) {
                let j = choose|j: int|
                    i + 1 <= j < t.subdirs@.len() && x[prefix.len() as int] == (
                    #[trigger] t.subdirs@[j]).name@;
                assert(t.subdirs@[i].name@ != t.subdirs@[j].name@);
            }
        }
        lemma_add_no_duplicates(first, rest);
        assert forall|x: Seq<Seq<char>>| #[trigger]
            cand_seq_children(t, budget, prefix, i).contains(x) implies x.len() > prefix.len()
                && (exists|j: int|
                i <= j < t.subdirs@.len() && x[prefix.len() as int] == (#[trigger] t.subdirs@[j]).name@) by {
            lemma_add_contains(first, rest, x);
            if first.contains(x) {
                assert(x[prefix.len() as int] == (t.subdirs@[i]).name@);
            }
        }
    }
}

/// Each candidate is reported once: over a well-formed tree the list of
/// found paths holds no duplicates, so it denotes its set of candidates
/// exactly.
pub proof fn lemma_no_duplicate_candidates(t: DirTree, depth: nat)
    requires
        wf(t),
    ensures
        cand_seq(t, depth, Seq::empty()).no_duplicates(),
{
    lemma_no_dup_node(t, depth, Seq::empty());
}

} // verus!
