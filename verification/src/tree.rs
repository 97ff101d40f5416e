//! The mathematical model of the hierarchical counter: a mapping from the
//! path of each node that exists to the counts of that node, and the laws
//! of merging stated over it.
use crate::gcounter::count_of;
use crate::gcounter::counts_le;
use crate::gcounter::join;
use crate::gcounter::lemma_join_associative;
use crate::gcounter::lemma_join_empty;
use crate::gcounter::lemma_join_total_monotone;
use crate::gcounter::lemma_join_upper_bound;
use crate::gcounter::lemma_total_insert;
use crate::gcounter::total;
use crate::gcounter::Counts;
use vstd::prelude::*;

verus! {
/// The path of a node: the names of the children to follow from the root.
pub type Path = Seq<Seq<char>>;

/// A tree of counters: the paths of the nodes that exist, each with the
/// counts of its node.
pub type Tree = Map<Path, Counts>;

/// The counter without entries.
pub open spec fn no_counts() -> Counts {
    Map::<Seq<char>, u64>::empty()
}

/// The counts at `path`, or no counts where the tree has no such node.
pub open spec fn counts_or_empty(t: Tree, path: Path) -> Counts {
    if t.dom().contains(path) {
        t[path]
    } else {
        no_counts()
    }
}

/// `p` is `path` or the path of one of its ancestors.
pub open spec fn is_prefix(p: Path, path: Path) -> bool {
    p.len() <= path.len() && p == path.take(p.len() as int)
}

/// The tree after the replica `replica` has counted one event at `path`:
/// the node at `path` and all its ancestors exist, and the count of the
/// replica at `path` is one higher. Nothing else changes.
pub open spec fn tree_increment(t: Tree, path: Path, replica: Seq<char>) -> Tree {
    Map::new(
        |p: Path| t.dom().contains(p) || is_prefix(p, path),
        |p: Path|
            if p == path {
                counts_or_empty(t, p).insert(
                    replica,
                    (count_of(counts_or_empty(t, p), replica) + 1) as u64,
                )
            } else {
                counts_or_empty(t, p)
            },
    )
}

/// The join of two trees: every node that either tree has, with the join
/// of its two counters.
pub open spec fn tree_join(a: Tree, b: Tree) -> Tree {
    Map::new(
        |p: Path| a.dom().contains(p) || b.dom().contains(p),
        |p: Path| join(counts_or_empty(a, p), counts_or_empty(b, p)),
    )
}

/// Every counter of the tree has finitely many entries.
pub open spec fn tree_finite(t: Tree) -> bool {
    forall|p: Path| #[trigger] t.dom().contains(p) ==> t[p].dom().finite()
}

/// The value at `path`: the sum of the counts of the node there, 0 where
/// the tree has no such node.
pub open spec fn value_at(t: Tree, path: Path) -> nat {
    total(counts_or_empty(t, path))
}

/// The counts of a joined tree at any path are the join of the counts of
/// the two trees there.
pub proof fn lemma_tree_join_at(a: Tree, b: Tree, p: Path)
    ensures
        counts_or_empty(tree_join(a, b), p) == join(counts_or_empty(a, p), counts_or_empty(b, p)),
{
    if !a.dom().contains(p) && !b.dom().contains(p) {
        lemma_join_empty(no_counts());
    }
}

/// Merging is commutative: `merge(A, B)` and `merge(B, A)` are the same
/// tree.
pub proof fn lemma_merge_commutative(a: Tree, b: Tree)
    ensures
        tree_join(a, b) == tree_join(b, a),
{
    assert forall|p: Path|
        join(counts_or_empty(a, p), counts_or_empty(b, p)) == join(
            counts_or_empty(b, p),
            counts_or_empty(a, p),
        ) by {
        crate::gcounter::lemma_join_commutative(counts_or_empty(a, p), counts_or_empty(b, p));
    }
}

/// Merging is idempotent: `merge(A, A)` is `A`.
pub proof fn lemma_merge_idempotent(a: Tree)
    ensures
        tree_join(a, a) == a,
{
    assert forall|p: Path| a.dom().contains(p) implies #[trigger] tree_join(a, a)[p] == a[p] by {
        crate::gcounter::lemma_join_idempotent(a[p]);
    }
}

/// Merging is associative: `merge(merge(A, B), C)` and
/// `merge(A, merge(B, C))` are the same tree.
pub proof fn lemma_merge_associative(a: Tree, b: Tree, c: Tree)
    ensures
        tree_join(tree_join(a, b), c) == tree_join(a, tree_join(b, c)),
{
    let left = tree_join(tree_join(a, b), c);
    let right = tree_join(a, tree_join(b, c));
    assert forall|p: Path| left.dom().contains(p) implies #[trigger] left[p] == right[p] by {
        lemma_tree_join_at(a, b, p);
        lemma_tree_join_at(b, c, p);
        lemma_join_associative(
            counts_or_empty(a, p),
            counts_or_empty(b, p),
            counts_or_empty(c, p),
        );
    }
}

/// Merging with a tree that holds nothing but an empty root changes
/// nothing.
pub proof fn lemma_merge_with_new(a: Tree, fresh: Tree)
    requires
        a.dom().contains(Seq::<Seq<char>>::empty()),
        fresh == Map::<Path, Counts>::empty().insert(Seq::<Seq<char>>::empty(), no_counts()),
    ensures
        tree_join(a, fresh) == a,
        tree_join(fresh, a) == a,
{
    assert forall|p: Path| a.dom().contains(p) implies #[trigger] tree_join(a, fresh)[p] == a[p]
        && tree_join(fresh, a)[p] == a[p] by {
        lemma_join_empty(a[p]);
    }
}

/// Merging loses nothing: every node of either tree is in their join, no
/// count there is lower than it was, and so no value is.
pub proof fn lemma_merge_monotone(a: Tree, b: Tree, p: Path)
    requires
        tree_finite(a),
        tree_finite(b),
    ensures
        a.dom().contains(p) ==> tree_join(a, b).dom().contains(p),
        b.dom().contains(p) ==> tree_join(a, b).dom().contains(p),
        counts_le(counts_or_empty(a, p), counts_or_empty(tree_join(a, b), p)),
        counts_le(counts_or_empty(b, p), counts_or_empty(tree_join(a, b), p)),
        value_at(a, p) <= value_at(tree_join(a, b), p),
        value_at(b, p) <= value_at(tree_join(a, b), p),
{
    lemma_tree_join_at(a, b, p);
    lemma_join_upper_bound(counts_or_empty(a, p), counts_or_empty(b, p));
    lemma_join_total_monotone(counts_or_empty(a, p), counts_or_empty(b, p));
}

/// Counting an event raises the value at its path by one and leaves the
/// value at every other path as it was; no node is lost.
pub proof fn lemma_increment_monotone(t: Tree, path: Path, replica: Seq<char>, p: Path)
    requires
        tree_finite(t),
        count_of(counts_or_empty(t, path), replica) < u64::MAX,
    ensures
        t.dom().contains(p) ==> tree_increment(t, path, replica).dom().contains(p),
        tree_increment(t, path, replica).dom().contains(path),
        value_at(tree_increment(t, path, replica), path) == value_at(t, path) + 1,
        p != path ==> value_at(tree_increment(t, path, replica), p) == value_at(t, p),
{
    assert(path.take(path.len() as int) =~= path);
    lemma_total_insert(
        counts_or_empty(t, path),
        replica,
        (count_of(counts_or_empty(t, path), replica) + 1) as u64,
    );
}

/// The join of two trees of finite counters is a tree of finite counters.
pub proof fn lemma_tree_join_finite(a: Tree, b: Tree)
    requires
        tree_finite(a),
        tree_finite(b),
    ensures
        tree_finite(tree_join(a, b)),
{
    assert forall|p: Path| #[trigger] tree_join(a, b).dom().contains(p) implies tree_join(
        a,
        b,
    )[p].dom().finite() by {
        lemma_join_total_monotone(counts_or_empty(a, p), counts_or_empty(b, p));
    }
}

/// The path of the root: no names.
pub open spec fn root_path() -> Path {
    Seq::<Seq<char>>::empty()
}

/// The tree that holds a root without counts and nothing else.
pub open spec fn new_tree() -> Tree {
    Map::<Path, Counts>::empty().insert(root_path(), no_counts())
}

/// The subtree of `t` below the child `name` of its root: the nodes whose
/// paths start with `name`, each under the rest of its path.
pub open spec fn subtree(t: Tree, name: Seq<char>) -> Tree {
    Map::new(|p: Path| t.dom().contains(seq![name] + p), |p: Path| t[seq![name] + p])
}

/// The tree `t` with `sub` in the place of the subtree below the child
/// `name` of its root.
pub open spec fn graft(t: Tree, name: Seq<char>, sub: Tree) -> Tree {
    Map::new(
        |p: Path|
            if p.len() > 0 && p[0] == name {
                sub.dom().contains(p.drop_first())
            } else {
                t.dom().contains(p)
            },
        |p: Path|
            if p.len() > 0 && p[0] == name {
                sub[p.drop_first()]
            } else {
                t[p]
            },
    )
}

/// The tree `a` after it has absorbed the root of `b` and the subtrees of
/// `b` below the children named in `done`, and no other.
pub open spec fn partial_join(a: Tree, b: Tree, done: Set<Seq<char>>) -> Tree {
    Map::new(
        |p: Path|
            if p.len() == 0 || done.contains(p[0]) {
                tree_join(a, b).dom().contains(p)
            } else {
                a.dom().contains(p)
            },
        |p: Path|
            if p.len() == 0 || done.contains(p[0]) {
                tree_join(a, b)[p]
            } else {
                a[p]
            },
    )
}

/// What stands below the child `name`: its subtree, or a new node where
/// the root has no such child.
pub open spec fn subtree_or_new(t: Tree, name: Seq<char>) -> Tree {
    if t.dom().contains(seq![name]) {
        subtree(t, name)
    } else {
        new_tree()
    }
}

/// Every node of the tree but the root has its parent in the tree.
pub open spec fn tree_closed(t: Tree) -> bool {
    &&& t.dom().contains(root_path())
    &&& forall|p: Path| #[trigger]
        t.dom().contains(p) && p.len() > 0 ==> t.dom().contains(p.drop_last())
}

/// A tree in which every node has its parent holds, with a node, every
/// node along its path; in particular the child that the path starts with.
pub proof fn lemma_closed_first(t: Tree, p: Path)
    requires
        tree_closed(t),
        t.dom().contains(p),
        p.len() > 0,
    ensures
        t.dom().contains(seq![p[0]]),
    decreases p.len(),
{
    if p.len() == 1 {
        assert(p =~= seq![p[0]]);
    } else {
        lemma_closed_first(t, p.drop_last());
    }
}

/// Counting an event below the child `name` is counting it in the subtree
/// of that child, created first where it was missing.
pub proof fn lemma_increment_graft(t: Tree, path: Path, replica: Seq<char>)
    requires
        tree_closed(t),
        path.len() > 0,
    ensures
        tree_increment(t, path, replica) == graft(
            t,
            path[0],
            tree_increment(subtree_or_new(t, path[0]), path.drop_first(), replica),
        ),
{
    let name = path[0];
    let rest = path.drop_first();
    let sub = subtree_or_new(t, name);
    let left = tree_increment(t, path, replica);
    let right = graft(t, name, tree_increment(sub, rest, replica));
    assert forall|p: Path|
        #![trigger left.dom().contains(p)]
        left.dom().contains(p) == right.dom().contains(p) && (left.dom().contains(p) ==> left[p]
            == right[p]) by {
        if p.len() == 0 {
            assert(p =~= root_path());
        } else if p[0] == name {
            let q = p.drop_first();
            assert(seq![name] + q =~= p);
            assert(seq![name] + rest =~= path);
            if p.len() <= path.len() {
                if p == path.take(p.len() as int) {
                    assert(q =~= rest.take(q.len() as int));
                }
                if q == rest.take(q.len() as int) {
                    assert(p =~= path.take(p.len() as int));
                }
            }
            assert((p == path) == (q == rest));
            if !t.dom().contains(seq![name]) {
                if t.dom().contains(p) {
                    lemma_closed_first(t, p);
                }
                if sub.dom().contains(q) {
                    assert(rest.take(0) =~= q);
                }
            }
        }
    }
}

/// Absorbing the subtree of `b` below one more child is one step from
/// having absorbed some of its children to having absorbed one more.
pub proof fn lemma_join_graft(a: Tree, b: Tree, done: Set<Seq<char>>, name: Seq<char>)
    requires
        tree_closed(a),
        tree_closed(b),
        b.dom().contains(seq![name]),
        !done.contains(name),
    ensures
        partial_join(a, b, done.insert(name)) == graft(
            partial_join(a, b, done),
            name,
            tree_join(subtree_or_new(partial_join(a, b, done), name), subtree(b, name)),
        ),
{
    let before = partial_join(a, b, done);
    let sub = subtree_or_new(before, name);
    let left = partial_join(a, b, done.insert(name));
    let right = graft(before, name, tree_join(sub, subtree(b, name)));
    assert forall|p: Path|
        #![trigger left.dom().contains(p)]
        left.dom().contains(p) == right.dom().contains(p) && (left.dom().contains(p) ==> left[p]
            == right[p]) by {
        if p.len() > 0 && p[0] == name {
            let q = p.drop_first();
            assert(seq![name] + q =~= p);
            if !a.dom().contains(seq![name]) {
                if a.dom().contains(p) {
                    lemma_closed_first(a, p);
                }
                if b.dom().contains(p) {
                    lemma_join_empty(b[p]);
                }
                lemma_join_empty(counts_or_empty(subtree(b, name), q));
            }
        }
    }
}

/// Once the subtrees below all children of `b` are absorbed, the trees
/// are joined.
pub proof fn lemma_join_done(a: Tree, b: Tree, done: Set<Seq<char>>)
    requires
        tree_closed(a),
        tree_closed(b),
        forall|name: Seq<char>| #[trigger] b.dom().contains(seq![name]) ==> done.contains(name),
    ensures
        partial_join(a, b, done) == tree_join(a, b),
{
    let left = partial_join(a, b, done);
    let right = tree_join(a, b);
    assert forall|p: Path|
        #![trigger left.dom().contains(p)]
        left.dom().contains(p) == right.dom().contains(p) && (left.dom().contains(p) ==> left[p]
            == right[p]) by {
        if p.len() > 0 && !done.contains(p[0]) {
            if b.dom().contains(p) {
                lemma_closed_first(b, p);
            }
            if a.dom().contains(p) {
                lemma_join_empty(a[p]);
            }
        }
    }
}

/// Before any subtree is absorbed, only the counts of the root are joined.
pub proof fn lemma_join_start(a: Tree, b: Tree, t: Tree)
    requires
        tree_closed(a),
        tree_closed(b),
        t.dom().contains(root_path()),
        t[root_path()] == join(a[root_path()], b[root_path()]),
        forall|p: Path| p.len() > 0 ==> t.dom().contains(p) == a.dom().contains(p),
        forall|p: Path| p.len() > 0 && a.dom().contains(p) ==> t[p] == a[p],
    ensures
        t == partial_join(a, b, Set::<Seq<char>>::empty()),
{
    let right = partial_join(a, b, Set::<Seq<char>>::empty());
    assert forall|p: Path|
        #![trigger t.dom().contains(p)]
        t.dom().contains(p) == right.dom().contains(p) && (t.dom().contains(p) ==> t[p]
            == right[p]) by {
        if p.len() == 0 {
            assert(p =~= root_path());
        }
    }
}

/// The subtree of `t` below the node at `prefix`: the nodes whose paths
/// start with `prefix`, each under the rest of its path.
pub open spec fn subtree_at(t: Tree, prefix: Path) -> Tree {
    Map::new(|p: Path| t.dom().contains(prefix + p), |p: Path| t[prefix + p])
}

/// The subtree below the root is the tree itself.
pub proof fn lemma_subtree_at_root(t: Tree)
    ensures
        subtree_at(t, root_path()) == t,
{
}

/// One step further down: the subtree below a child of the node at
/// `prefix` is the subtree at the path of that child.
pub proof fn lemma_subtree_at_step(t: Tree, prefix: Path, name: Seq<char>)
    ensures
        subtree(subtree_at(t, prefix), name) == subtree_at(t, prefix.push(name)),
{
    assert forall|p: Path| prefix + (seq![name] + p) == prefix.push(name) + p by {}
}

/// A tree in which every node has its parent holds, with a node, the
/// node at every prefix of its path.
pub proof fn lemma_closed_prefix(t: Tree, p: Path, k: int)
    requires
        tree_closed(t),
        t.dom().contains(p),
        0 <= k <= p.len(),
    ensures
        t.dom().contains(p.take(k)),
    decreases p.len() - k,
{
    if k == p.len() {
        assert(p.take(k) =~= p);
    } else {
        lemma_closed_prefix(t, p, k + 1);
        assert(p.take(k + 1).drop_last() =~= p.take(k));
    }
}
} // verus!
