//! The tree of counters itself: a node holds its own counter and its
//! children by name; the hierarchical counter holds the root.
use crate::gcounter::count_of;
use crate::gcounter::Counts;
use crate::gcounter::GCounter;
use crate::keys::ascending;
use crate::keys::compare;
use crate::keys::key_lt;
use crate::keys::lemma_key_lt_transitive;
use crate::keys::lemma_key_lt_trichotomy;
use crate::keys::KeyOrder;
use crate::keys::has_key;
use crate::keys::index_of;
use crate::keys::lemma_belongs_absent;
use crate::keys::lemma_insert;
use crate::keys::lemma_same_names;
use crate::keys::lemma_take_next;
use crate::keys::lemma_to_map_at;
use crate::keys::lemma_update;
use crate::keys::search;
use crate::keys::sorted;
use crate::tree::counts_or_empty;
use crate::tree::new_tree;
use crate::tree::root_path;
use crate::tree::subtree;
use crate::tree::subtree_or_new;
use crate::tree::graft;
use crate::tree::partial_join;
use crate::tree::tree_closed;
use crate::tree::lemma_closed_prefix;
use crate::tree::lemma_subtree_at_root;
use crate::tree::lemma_subtree_at_step;
use crate::tree::subtree_at;
use crate::tree::value_at;
use crate::tree::lemma_increment_graft;
use crate::tree::lemma_join_graft;
use crate::tree::lemma_join_done;
use crate::tree::lemma_join_start;
use crate::keys::to_map;
use crate::keys::lemma_to_map_empty;
use crate::tree::tree_finite;
use crate::tree::tree_increment;
use crate::tree::tree_join;
use crate::tree::Path;
use crate::tree::Tree;
use vstd::prelude::*;

verus! {
/// The layout of a node: the entries of its counter and its children, both
/// in the order in which they are kept, ascending by name. It is what the
/// functions that turn a node into bytes walk.
pub struct Shape {
    /// The entries of the node's own counter: replica and count.
    pub counts: Seq<(Seq<char>, u64)>,
    /// The children: name and layout.
    pub children: Seq<(Seq<char>, Shape)>,
}

/// At every node of the layout, the entries of the counter and the
/// children ascend strictly by name.
pub open spec fn shape_sorted(shape: Shape) -> bool
    decreases shape,
{
    &&& ascending(shape.counts)
    &&& ascending(shape.children)
    &&& forall|i: int|
        0 <= i < shape.children.len() ==> shape_sorted((#[trigger] shape.children[i]).1)
}

/// A node of the tree: its own counter, and its children by name.
#[derive(Debug, PartialEq)]
pub struct Node {
    crdt: GCounter,
    children: Vec<(String, Node)>,
}

impl Node {
    /// The counter is well formed, the children are kept in ascending
    /// order of their names, each name once, and every child is well
    /// formed in turn.
    pub closed spec fn wf(&self) -> bool
        decreases self,
    {
        &&& self.crdt.wf()
        &&& sorted(self.children@)
        &&& forall|i: int|
            0 <= i < self.children@.len() ==> (#[trigger] self.children@[i]).1.wf()
    }

    /// The layout of the tree below this node.
    pub closed spec fn shape(&self) -> Shape
        decreases self,
    {
        Shape { counts: self.crdt.entries(), children: Self::shapes(self.children@) }
    }

    /// The layouts of a list of children, each with its name.
    pub closed spec fn shapes(children: Seq<(String, Node)>) -> Seq<(Seq<char>, Shape)>
        decreases children,
    {
        if children.len() == 0 {
            Seq::empty()
        } else {
            Self::shapes(children.drop_last()).push(
                (children.last().0@, children.last().1.shape()),
            )
        }
    }

    /// The child of the given name, where there is one.
    pub closed spec fn spec_child(&self, name: Seq<char>) -> Option<Node> {
        if to_map(self.children@).dom().contains(name) {
            Some(to_map(self.children@)[name])
        } else {
            None
        }
    }

    /// The counts of the node that `path` leads to from this node, where
    /// there is one.
    pub closed spec fn counts_at(&self, path: Path) -> Option<Counts>
        decreases path.len(),
    {
        if path.len() == 0 {
            Some(self.crdt@)
        } else {
            match self.spec_child(path[0]) {
                Some(child) => child.counts_at(path.drop_first()),
                None => None,
            }
        }
    }

    /// In a well-formed node, the child at place `i` is the one found
    /// under its name.
    proof fn lemma_child_at(&self, i: int)
        requires
            sorted(self.children@),
            0 <= i < self.children@.len(),
        ensures
            self.spec_child(self.children@[i].0@) == Some(self.children@[i].1),
    {
        lemma_to_map_at(self.children@, i);
    }

    /// The counts along a path that starts with the name of the child at
    /// place `i` are the counts of that child along the rest of the path.
    proof fn lemma_counts_through(&self, i: int, p: Path)
        requires
            sorted(self.children@),
            0 <= i < self.children@.len(),
            p.len() > 0,
            p[0] == self.children@[i].0@,
        ensures
            self.counts_at(p) == self.children@[i].1.counts_at(p.drop_first()),
    {
        self.lemma_child_at(i);
    }

    /// No path leads through a name that no child has.
    proof fn lemma_counts_absent(&self, p: Path)
        requires
            p.len() > 0,
            !has_key(self.children@, p[0]),
        ensures
            self.counts_at(p) is None,
    {
    }

    /// Every counter of a well-formed node has finitely many entries.
    pub proof fn lemma_finite(&self)
        requires
            self.wf(),
        ensures
            tree_finite(self@),
            self@.dom().contains(root_path()),
    {
        assert forall|p: Path| #[trigger] self@.dom().contains(p) implies self@[p].dom().finite() by {
            self.lemma_finite_at(p);
        }
    }

    /// The counter at the end of any path has finitely many entries.
    proof fn lemma_finite_at(&self, p: Path)
        requires
            self.wf(),
            self.counts_at(p) is Some,
        ensures
            self.counts_at(p).unwrap().dom().finite(),
        decreases p.len(),
    {
        if p.len() == 0 {
            self.crdt.lemma_finite();
        } else {
            let i = index_of(self.children@, p[0]);
            self.lemma_counts_through(i, p);
            self.children@[i].1.lemma_finite_at(p.drop_first());
        }
    }

    /// The subtree below a child, seen from the parent.
    proof fn lemma_subtree(&self, i: int)
        requires
            sorted(self.children@),
            0 <= i < self.children@.len(),
        ensures
            subtree(self@, self.children@[i].0@) == self.children@[i].1@,
    {
        let name = self.children@[i].0@;
        let child = self.children@[i].1;
        assert forall|p: Path| self.counts_at(seq![name] + p) == child.counts_at(p) by {
            let q = seq![name] + p;
            assert(q.drop_first() =~= p);
            self.lemma_counts_through(i, q);
        }
    }

    /// Every node of the tree below a node has its parent there.
    pub proof fn lemma_closed(&self)
        ensures
            tree_closed(self@),
    {
        assert forall|p: Path| #[trigger] self@.dom().contains(p) && p.len() > 0 implies self@.dom().contains(
            p.drop_last(),
        ) by {
            self.lemma_closed_at(p);
        }
    }

    /// Where a path leads to a node, the path without its last name
    /// leads to one too.
    proof fn lemma_closed_at(&self, p: Path)
        requires
            self.counts_at(p) is Some,
            p.len() > 0,
        ensures
            self.counts_at(p.drop_last()) is Some,
        decreases p.len(),
    {
        if p.len() > 1 {
            let child = self.spec_child(p[0]).unwrap();
            child.lemma_closed_at(p.drop_first());
            assert(p.drop_last().drop_first() =~= p.drop_first().drop_last());
        }
    }

    /// What stands below the name `name`, seen from the parent: the tree
    /// of the child of that name, or a new node where there is none.
    proof fn lemma_subtree_or_new(&self, name: Seq<char>)
        ensures
            self@.dom().contains(seq![name]) == (self.spec_child(name) is Some),
            subtree_or_new(self@, name) == match self.spec_child(name) {
                Some(child) => child@,
                None => new_tree(),
            },
    {
        match self.spec_child(name) {
            Some(child) => {
                assert(child.counts_at(root_path()) is Some);
                assert forall|p: Path| self.counts_at(seq![name] + p) == child.counts_at(p) by {
                    assert((seq![name] + p).drop_first() =~= p);
                }
            },
            None => {},
        }
    }

    /// A node that differs from another only in what stands under the
    /// name `name` has the other's tree, with the tree of that child
    /// grafted in.
    proof fn lemma_children_changed(&self, after: Node, name: Seq<char>, child: Node)
        requires
            after.crdt@ == self.crdt@,
            to_map(after.children@) == to_map(self.children@).insert(name, child),
        ensures
            after@ == graft(self@, name, child@),
    {
    }

    /// The layouts of a list of children stand at the places of the
    /// children, each beside the child's name.
    proof fn lemma_shapes(children: Seq<(String, Node)>)
        ensures
            Self::shapes(children).len() == children.len(),
            forall|i: int|
                0 <= i < children.len() ==> (#[trigger] Self::shapes(children)[i]) == (
                    children[i].0@,
                    children[i].1.shape(),
                ),
        decreases children.len(),
    {
        if children.len() > 0 {
            Self::lemma_shapes(children.drop_last());
        }
    }

    /// Adding a child behind the others adds its layout behind theirs.
    proof fn lemma_shapes_push(children: Seq<(String, Node)>, entry: (String, Node))
        ensures
            Self::shapes(children.push(entry)) == Self::shapes(children).push(
                (entry.0@, entry.1.shape()),
            ),
    {
        assert(children.push(entry).drop_last() =~= children);
    }

    /// The layout of a well-formed node ascends by name at every node.
    pub proof fn lemma_shape_sorted(&self)
        requires
            self.wf(),
        ensures
            shape_sorted(self.shape()),
        decreases self,
    {
        self.crdt.lemma_entries();
        Self::lemma_shapes(self.children@);
        let children = self.shape().children;
        assert forall|i: int| 0 <= i < children.len() implies shape_sorted(
            (#[trigger] children[i]).1,
        ) by {
            self.children@[i].1.lemma_shape_sorted();
        }
    }

    /// Nodes of the same layout have the same counts along every path.
    proof fn lemma_same_counts_at(&self, other: &Node, p: Path)
        requires
            self.wf(),
            other.wf(),
            self.shape() == other.shape(),
        ensures
            self.counts_at(p) == other.counts_at(p),
        decreases p.len(),
    {
        Self::lemma_shapes(self.children@);
        Self::lemma_shapes(other.children@);
        let a = self.children@;
        let b = other.children@;
        assert forall|i: int| 0 <= i < a.len() implies (#[trigger] a[i]).0@ == b[i].0@ && a[i].1.shape()
            == b[i].1.shape() by {
            assert(Self::shapes(a)[i] == Self::shapes(b)[i]);
        }
        if p.len() == 0 {
            self.crdt.lemma_entries_determined(&other.crdt);
        } else {
            let k = p[0];
            if has_key(a, k) {
                let i = index_of(a, k);
                self.lemma_counts_through(i, p);
                other.lemma_counts_through(i, p);
                a[i].1.lemma_same_counts_at(&b[i].1, p.drop_first());
            } else {
                if has_key(b, k) {
                    let i = index_of(b, k);
                    assert(a[i].0@ == k);
                }
                self.lemma_counts_absent(p);
                other.lemma_counts_absent(p);
            }
        }
    }

    /// Two well-formed nodes have the same layout exactly if they hold
    /// the same tree: a tree has one layout, whatever the order in which
    /// it was built.
    pub proof fn lemma_shape_determined(&self, other: &Node)
        requires
            self.wf(),
            other.wf(),
        ensures
            (self.shape() == other.shape()) <==> (self@ == other@),
        decreases self,
    {
        if self.shape() == other.shape() {
            assert forall|p: Path| self.counts_at(p) == other.counts_at(p) by {
                self.lemma_same_counts_at(other, p);
            }
            assert(self@ =~= other@);
        }
        if self@ == other@ {
            let a = self.children@;
            let b = other.children@;
            Self::lemma_shapes(a);
            Self::lemma_shapes(b);
            assert(self.counts_at(root_path()) == other.counts_at(root_path())) by {
                assert(self@[root_path()] == other@[root_path()]);
            }
            self.crdt.lemma_entries_determined(&other.crdt);
            assert forall|k: Seq<char>| has_key(a, k) == has_key(b, k) by {
                self.lemma_subtree_or_new(k);
                other.lemma_subtree_or_new(k);
            }
            lemma_same_names(a, b);
            assert forall|i: int| 0 <= i < a.len() implies Self::shapes(a)[i] == Self::shapes(
                b,
            )[i] by {
                self.lemma_subtree(i);
                other.lemma_subtree(i);
                a[i].1.lemma_shape_determined(&b[i].1);
            }
            assert(Self::shapes(a) =~= Self::shapes(b));
        }
    }

    /// A node without counts and without children.
    pub fn new() -> (node: Self)
        ensures
            node.wf(),
            node@ == new_tree(),
    {
        let node = Node { crdt: GCounter::new(), children: Vec::new() };
        proof {
            assert forall|p: Path| p.len() > 0 implies node.counts_at(p) is None by {
                node.lemma_counts_absent(p);
            }
            assert forall|p: Path| p.len() == 0 implies p == root_path() by {}
        }
        node
    }

    /// The node's own counter.
    pub fn crdt(&self) -> (counter: &GCounter)
        requires
            self.wf(),
        ensures
            counter.wf(),
            counter@ == self@[root_path()],
            counter.entries() == self.shape().counts,
    {
        &self.crdt
    }

    /// The name of the child at place `i`, in ascending order of names.
    pub fn child_name(&self, i: usize) -> (name: &str)
        requires
            self.wf(),
            i < self.shape().children.len(),
        ensures
            name@ == self.shape().children[i as int].0,
            self@.dom().contains(seq![name@]),
    {
        proof {
            Self::lemma_shapes(self.children@);
            self.lemma_child_at(i as int);
            self.lemma_subtree_or_new(self.children@[i as int].0@);
        }
        self.children[i].0.as_str()
    }

    /// The child at place `i`, in ascending order of names.
    pub fn child_at(&self, i: usize) -> (child: &Node)
        requires
            self.wf(),
            i < self.shape().children.len(),
        ensures
            child.wf(),
            child.shape() == self.shape().children[i as int].1,
            child@ == subtree(self@, self.shape().children[i as int].0),
    {
        proof {
            Self::lemma_shapes(self.children@);
            self.lemma_subtree(i as int);
        }
        &self.children[i].1
    }

    /// Adds a child behind all others. Its name must come after the name
    /// of the last child; where it does not, nothing is added and the
    /// child is handed back.
    pub fn push_child(&mut self, name: String, child: Node) -> (refused: Option<Node>)
        requires
            old(self).wf(),
            child.wf(),
        ensures
            final(self).wf(),
            refused is None <==> (old(self).shape().children.len() == 0 || key_lt(
                old(self).shape().children.last().0,
                name@,
            )),
            refused is None ==> final(self).shape() == (Shape {
                counts: old(self).shape().counts,
                children: old(self).shape().children.push((name@, child.shape())),
            }),
            refused matches Some(back) ==> back == child && final(self).shape() == old(
                self,
            ).shape(),
    {
        let n = self.children.len();
        proof {
            Self::lemma_shapes(self.children@);
        }
        if n > 0 {
            match compare(self.children[n - 1].0.as_str(), name.as_str()) {
                KeyOrder::Before => {},
                _ => {
                    proof {
                        lemma_key_lt_trichotomy(self.children@[n - 1].0@, name@);
                    }
                    return Some(child);
                },
            }
        }
        proof {
            assert forall|j: int| 0 <= j < n implies key_lt(
                (#[trigger] self.children@[j]).0@,
                name@,
            ) by {
                if j < n - 1 {
                    lemma_key_lt_transitive(self.children@[j].0@, self.children@[n - 1].0@, name@);
                }
            }
            lemma_insert(self.children@, n as int, (name, child));
            assert(self.children@.insert(n as int, (name, child)) =~= self.children@.push(
                (name, child),
            ));
            Self::lemma_shapes_push(self.children@, (name, child));
        }
        self.children.push((name, child));
        None
    }

    /// A node with the given counter and no children.
    pub fn with_counter(counter: GCounter) -> (node: Self)
        requires
            counter.wf(),
        ensures
            node.wf(),
            node.shape() == (Shape { counts: counter.entries(), children: Seq::empty() }),
    {
        Node { crdt: counter, children: Vec::new() }
    }

    /// The number of children.
    pub fn child_count(&self) -> (count: usize)
        requires
            self.wf(),
        ensures
            count == self.shape().children.len(),
            count == 0 <==> (forall|name: Seq<char>| !self@.dom().contains(seq![name])),
    {
        proof {
            Self::lemma_shapes(self.children@);
            if self.children@.len() > 0 {
                self.lemma_counts_through(0, seq![self.children@[0].0@]);
            }
            assert forall|name: Seq<char>| self.children@.len() == 0 implies !self@.dom().contains(
                seq![name],
            ) by {
                self.lemma_counts_absent(seq![name]);
            }
        }
        self.children.len()
    }

    /// The child of the given name, where there is one.
    pub fn child(&self, name: &str) -> (found: Option<&Node>)
        requires
            self.wf(),
        ensures
            found is Some <==> self@.dom().contains(seq![name@]),
            found matches Some(child) ==> child.wf() && child@ == subtree(self@, name@),
    {
        match search(&self.children, name) {
            Ok(at) => {
                proof {
                    self.lemma_counts_through(at as int, seq![name@]);
                    self.lemma_subtree(at as int);
                }
                Some(&self.children[at].1)
            },
            Err(at) => {
                proof {
                    lemma_belongs_absent(self.children@, name@, at as int);
                    self.lemma_counts_absent(seq![name@]);
                }
                None
            },
        }
    }
}

impl Node {
    /// Counts one more event of the replica `node_id` at the node that the
    /// names of `path` from place `depth` on lead to from this node, and
    /// creates the nodes on the way that are missing.
    fn increment_from(&mut self, path: &Vec<String>, depth: usize, node_id: String)
        requires
            old(self).wf(),
            depth <= path.len(),
            count_of(
                counts_or_empty(old(self)@, path.deep_view().skip(depth as int)),
                node_id@,
            ) < u64::MAX,
        ensures
            final(self).wf(),
            final(self)@ == tree_increment(
                old(self)@,
                path.deep_view().skip(depth as int),
                node_id@,
            ),
        decreases path.len() - depth,
    {
        let ghost before = *self;
        let ghost rest = path.deep_view().skip(depth as int);
        if depth == path.len() {
            self.crdt.increment(node_id);
            proof {
                let ghost after = *self;
                let ghost want = tree_increment(before@, rest, node_id@);
                assert forall|p: Path|
                    #![trigger after@.dom().contains(p)]
                    after@.dom().contains(p) == want.dom().contains(p) && (after@.dom().contains(
                        p,
                    ) ==> after@[p] == want[p]) by {
                    if p.len() == 0 {
                        assert(p =~= rest);
                    }
                }
            }
        } else {
            let ghost name = path@[depth as int]@;
            assert(rest.drop_first() =~= path.deep_view().skip(depth + 1));
            proof {
                before.lemma_subtree_or_new(name);
                before.lemma_closed();
                lemma_increment_graft(before@, rest, node_id@);
            }
            let at: usize = match search(&self.children, path[depth].as_str()) {
                Ok(at) => {
                    proof {
                        lemma_to_map_at(self.children@, at as int);
                    }
                    at
                },
                Err(at) => {
                    let key = path[depth].clone();
                    let fresh = Node::new();
                    proof {
                        lemma_belongs_absent(self.children@, name, at as int);
                        lemma_insert(self.children@, at as int, (key, fresh));
                    }
                    self.children.insert(at, (key, fresh));
                    at
                },
            };
            let ghost mid = *self;
            self.children[at].1.increment_from(path, depth + 1, node_id);
            proof {
                let ghost after = *self;
                let ghost entry = after.children@[at as int];
                lemma_update(mid.children@, at as int, entry);
                assert(to_map(after.children@) =~= to_map(before.children@).insert(name, entry.1));
                before.lemma_children_changed(after, name, entry.1);
            }
        }
    }
}

impl View for Node {
    type V = Tree;

    /// The tree below this node: the path of every node in it, seen from
    /// this node, with the counts there.
    closed spec fn view(&self) -> Tree {
        Map::new(
            |p: Path| self.counts_at(p) is Some,
            |p: Path| self.counts_at(p).unwrap(),
        )
    }
}

impl Clone for Node {
    /// A copy that holds the same tree.
    fn clone(&self) -> (copy: Self)
        ensures
            copy.shape() == self.shape(),
            self.wf() ==> copy.wf() && copy@ == self@,
        decreases self,
    {
        let mut children: Vec<(String, Node)> = Vec::new();
        let mut i: usize = 0;
        while i < self.children.len()
            invariant
                i <= self.children.len(),
                children@.len() == i,
                forall|j: int|
                    0 <= j < i ==> (#[trigger] children@[j]).0@ == self.children@[j].0@
                        && children@[j].1.shape() == self.children@[j].1.shape() && (
                    self.children@[j].1.wf() ==> children@[j].1.wf()),
            decreases self.children.len() - i,
        {
            let name = self.children[i].0.clone();
            let child = self.children[i].1.clone();
            children.push((name, child));
            i = i + 1;
        }
        let copy = Node { crdt: self.crdt.clone(), children };
        proof {
            Self::lemma_shapes(self.children@);
            Self::lemma_shapes(copy.children@);
            assert(Self::shapes(copy.children@) =~= Self::shapes(self.children@));
            if self.wf() {
                copy.lemma_shape_determined(self);
            }
        }
        copy
    }
}

impl Clone for HierarchicalCRDT {
    /// A copy that holds the same tree.
    fn clone(&self) -> (copy: Self)
        ensures
            copy.shape() == self.shape(),
            self.wf() ==> copy.wf() && copy@ == self@,
    {
        HierarchicalCRDT { root: self.root.clone() }
    }
}

/// The hierarchical counter: a tree of grow-only counters, addressed by
/// paths from its root.
#[derive(Debug, PartialEq)]
pub struct HierarchicalCRDT {
    root: Node,
}

impl View for HierarchicalCRDT {
    type V = Tree;

    /// The tree of the counter: the path of every node, with its counts.
    closed spec fn view(&self) -> Tree {
        self.root@
    }
}

impl HierarchicalCRDT {
    /// The tree below the root is well formed.
    pub closed spec fn wf(&self) -> bool {
        self.root.wf()
    }

    /// A well-formed counter has a root, holds with every node its parent,
    /// and has finitely many entries in each of its counters.
    pub proof fn lemma_tree(&self)
        requires
            self.wf(),
        ensures
            tree_closed(self@),
            tree_finite(self@),
    {
        self.root.lemma_closed();
        self.root.lemma_finite();
    }

    /// The layout of the tree below the root.
    pub closed spec fn shape(&self) -> Shape {
        self.root.shape()
    }

    /// Two well-formed counters have the same layout exactly if they hold
    /// the same tree.
    pub proof fn lemma_shape_determined(&self, other: &HierarchicalCRDT)
        requires
            self.wf(),
            other.wf(),
        ensures
            (self.shape() == other.shape()) <==> (self@ == other@),
    {
        self.root.lemma_shape_determined(&other.root);
    }

    /// The layout of a well-formed counter ascends by name at every node.
    pub proof fn lemma_shape_sorted(&self)
        requires
            self.wf(),
        ensures
            shape_sorted(self.shape()),
    {
        self.root.lemma_shape_sorted();
    }

    /// The counter with the given root.
    pub fn from_root(root: Node) -> (crdt: Self)
        requires
            root.wf(),
        ensures
            crdt.wf(),
            crdt@ == root@,
            crdt.shape() == root.shape(),
    {
        HierarchicalCRDT { root }
    }

    /// A counter that holds a root without counts and nothing else.
    pub fn new() -> (crdt: Self)
        ensures
            crdt.wf(),
            crdt@ == new_tree(),
    {
        HierarchicalCRDT { root: Node::new() }
    }

    /// The root node.
    pub fn root(&self) -> (root: &Node)
        requires
            self.wf(),
        ensures
            root.wf(),
            root@ == self@,
            root.shape() == self.shape(),
    {
        &self.root
    }

    /// Counts one more event of the replica `node_id` at `path`. The node
    /// there is created first where it is missing, with every missing node
    /// on the way; the empty path is the root.
    pub fn increment(&mut self, path: Vec<String>, node_id: String)
        requires
            old(self).wf(),
            count_of(counts_or_empty(old(self)@, path.deep_view()), node_id@) < u64::MAX,
        ensures
            final(self).wf(),
            final(self)@ == tree_increment(old(self)@, path.deep_view(), node_id@),
    {
        assert(path.deep_view().skip(0) =~= path.deep_view());
        self.root.increment_from(&path, 0, node_id);
    }

    /// The value at `path`: the sum of the counts of the node there, and 0
    /// where there is no such node.
    pub fn value_at(&self, path: &Vec<String>) -> (sum: u64)
        requires
            self.wf(),
            value_at(self@, path.deep_view()) <= u64::MAX,
        ensures
            sum == value_at(self@, path.deep_view()),
    {
        let ghost names = path.deep_view();
        let mut node: &Node = &self.root;
        let mut i: usize = 0;
        proof {
            lemma_subtree_at_root(self@);
            self.root.lemma_closed();
        }
        while i < path.len()
            invariant
                i <= path.len(),
                names == path.deep_view(),
                self.wf(),
                tree_closed(self@),
                node.wf(),
                node@ == subtree_at(self@, names.take(i as int)),
            decreases path.len() - i,
        {
            let ghost name = names[i as int];
            proof {
                lemma_subtree_at_step(self@, names.take(i as int), name);
                assert(names.take(i as int).push(name) =~= names.take(i + 1));
                assert(names.take(i as int) + seq![name] =~= names.take(i + 1));
            }
            match node.child(path[i].as_str()) {
                Some(child) => {
                    node = child;
                },
                None => {
                    proof {
                        if self@.dom().contains(names) {
                            lemma_closed_prefix(self@, names, i + 1);
                        }
                        crate::gcounter::lemma_total_empty();
                    }
                    return 0;
                },
            }
            i = i + 1;
        }
        proof {
            assert(names.take(i as int) =~= names);
            node.lemma_finite();
        }
        node.crdt().value()
    }

    /// Absorbs another counter: afterwards this one holds every node of
    /// either, each with the join of its two counters.
    pub fn merge(&mut self, other: &HierarchicalCRDT)
        requires
            old(self).wf(),
            other.wf(),
        ensures
            final(self).wf(),
            final(self)@ == tree_join(old(self)@, other@),
    {
        Self::merge_node(&mut self.root, &other.root);
    }

    /// Absorbs the tree below `other` into the tree below `node`: the
    /// counters of the two nodes are merged, and so, child by child of
    /// `other`, are the subtrees of the same name, a missing one being
    /// created first.
    pub fn merge_node(node: &mut Node, other: &Node)
        requires
            old(node).wf(),
            other.wf(),
        ensures
            final(node).wf(),
            final(node)@ == tree_join(old(node)@, other@),
        decreases other,
    {
        let ghost before = *node;
        let ghost a = before@;
        let ghost b = other@;
        proof {
            before.lemma_closed();
            other.lemma_closed();
        }
        node.crdt.merge(&other.crdt);
        proof {
            let ghost started = *node;
            lemma_join_start(a, b, started@);
            lemma_to_map_empty(other.children@.take(0));
        }
        let mut i: usize = 0;
        while i < other.children.len()
            invariant
                i <= other.children.len(),
                node.wf(),
                other.wf(),
                a == before@,
                b == other@,
                tree_closed(a),
                tree_closed(b),
                node@ == partial_join(a, b, to_map(other.children@.take(i as int)).dom()),
            decreases other.children.len() - i,
        {
            let ghost done = to_map(other.children@.take(i as int)).dom();
            let ghost current = *node;
            let ghost name = other.children@[i as int].0@;
            proof {
                lemma_take_next(other.children@, i as int);
                other.lemma_child_at(i as int);
                other.lemma_subtree_or_new(name);
                current.lemma_subtree_or_new(name);
                lemma_join_graft(a, b, done, name);
            }
            let at: usize = match search(&node.children, other.children[i].0.as_str()) {
                Ok(at) => {
                    proof {
                        lemma_to_map_at(node.children@, at as int);
                    }
                    at
                },
                Err(at) => {
                    let key = other.children[i].0.clone();
                    let fresh = Node::new();
                    proof {
                        lemma_belongs_absent(node.children@, name, at as int);
                        lemma_insert(node.children@, at as int, (key, fresh));
                    }
                    node.children.insert(at, (key, fresh));
                    at
                },
            };
            let ghost mid = *node;
            Self::merge_node(&mut node.children[at].1, &other.children[i].1);
            proof {
                let ghost after = *node;
                let ghost entry = after.children@[at as int];
                lemma_update(mid.children@, at as int, entry);
                assert(to_map(after.children@) =~= to_map(current.children@).insert(name, entry.1));
                current.lemma_children_changed(after, name, entry.1);
            }
            i = i + 1;
        }
        proof {
            assert(other.children@.take(i as int) =~= other.children@);
            let ghost done = to_map(other.children@).dom();
            assert forall|name: Seq<char>| #[trigger]
                b.dom().contains(seq![name]) implies done.contains(name) by {
                other.lemma_subtree_or_new(name);
            }
            lemma_join_done(a, b, done);
        }
    }
}
} // verus!
