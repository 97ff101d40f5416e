//! The grow-only counter: one count per replica, merged by taking the
//! larger count of each replica.
use crate::keys::ascending;
use crate::keys::has_key;
use crate::keys::lemma_same_names;
use crate::keys::compare;
use crate::keys::index_of;
use crate::keys::key_lt;
use crate::keys::lemma_key_lt_transitive;
use crate::keys::lemma_key_lt_trichotomy;
use crate::keys::KeyOrder;
use crate::keys::lemma_belongs_absent;
use crate::keys::lemma_insert;
use crate::keys::lemma_take_next;
use crate::keys::lemma_to_map_at;
use crate::keys::lemma_to_map_empty;
use crate::keys::lemma_to_map_finite;
use crate::keys::lemma_update;
use crate::keys::search;
use crate::keys::sorted;
use crate::keys::to_map;
use vstd::prelude::*;
use vstd::set::fold::is_fun_commutative;
use vstd::set::fold::lemma_fold_empty;
use vstd::set::fold::lemma_fold_insert;

verus! {
/// The counts of a counter: each replica that has an entry, with its count.
pub type Counts = Map<Seq<char>, u64>;

/// The count of `replica` in `m`: its entry, or 0 where it has none.
pub open spec fn count_of(m: Counts, replica: Seq<char>) -> u64 {
    if m.dom().contains(replica) {
        m[replica]
    } else {
        0
    }
}

/// Adds the count of `replica` in `m` to `acc`.
pub open spec fn add_count(m: Counts) -> spec_fn(nat, Seq<char>) -> nat {
    |acc: nat, replica: Seq<char>| (acc + m[replica]) as nat
}

/// The value of a counter: the sum of the counts of all its replicas.
pub open spec fn total(m: Counts) -> nat {
    m.dom().fold(0nat, add_count(m))
}

/// The join of two counters: an entry for every replica that either has,
/// holding the larger of its two counts.
pub open spec fn join(a: Counts, b: Counts) -> Counts {
    Map::new(
        |replica: Seq<char>| a.dom().contains(replica) || b.dom().contains(replica),
        |replica: Seq<char>|
            if count_of(a, replica) >= count_of(b, replica) {
                count_of(a, replica)
            } else {
                count_of(b, replica)
            },
    )
}

/// `a` has no entry that `b` lacks, and no count above that of `b`.
pub open spec fn counts_le(a: Counts, b: Counts) -> bool {
    forall|replica: Seq<char>| #[trigger]
        a.dom().contains(replica) ==> b.dom().contains(replica) && a[replica] <= b[replica]
}

/// Two ways of folding that agree on every element of a finite set give
/// the same result.
proof fn lemma_fold_agree(
    s: Set<Seq<char>>,
    f: spec_fn(nat, Seq<char>) -> nat,
    g: spec_fn(nat, Seq<char>) -> nat,
)
    requires
        s.finite(),
        is_fun_commutative(f),
        is_fun_commutative(g),
        forall|acc: nat, x: Seq<char>| s.contains(x) ==> #[trigger] f(acc, x) == g(acc, x),
    ensures
        s.fold(0nat, f) == s.fold(0nat, g),
    decreases s.len(),
{
    if s.len() == 0 {
        assert(s =~= Set::<Seq<char>>::empty());
        lemma_fold_empty(0nat, f);
        lemma_fold_empty(0nat, g);
    } else {
        let x = s.choose();
        let rest = s.remove(x);
        lemma_fold_agree(rest, f, g);
        lemma_fold_insert(rest, 0nat, f, x);
        lemma_fold_insert(rest, 0nat, g, x);
    }
}

/// Adding counts does not depend on the order of the replicas.
proof fn lemma_add_count_commutative(m: Counts)
    ensures
        is_fun_commutative(add_count(m)),
{
}

/// The empty counter has the value 0.
pub proof fn lemma_total_empty()
    ensures
        total(Map::<Seq<char>, u64>::empty()) == 0,
{
    let m = Map::<Seq<char>, u64>::empty();
    lemma_fold_empty(0nat, add_count(m));
}

/// An entry for a replica that had none adds its count to the value.
pub proof fn lemma_total_insert_new(m: Counts, replica: Seq<char>, count: u64)
    requires
        m.dom().finite(),
        !m.dom().contains(replica),
    ensures
        total(m.insert(replica, count)) == total(m) + count,
{
    let n = m.insert(replica, count);
    lemma_add_count_commutative(m);
    lemma_add_count_commutative(n);
    lemma_fold_insert(m.dom(), 0nat, add_count(n), replica);
    lemma_fold_agree(m.dom(), add_count(n), add_count(m));
}

/// The value is the count of any one replica plus the value of the rest.
pub proof fn lemma_total_remove(m: Counts, replica: Seq<char>)
    requires
        m.dom().finite(),
        m.dom().contains(replica),
    ensures
        total(m) == total(m.remove(replica)) + m[replica],
{
    let rest = m.remove(replica);
    assert(rest.insert(replica, m[replica]) =~= m);
    lemma_total_insert_new(rest, replica, m[replica]);
}

/// Setting the count of a replica changes the value by the difference to
/// the count it had.
pub proof fn lemma_total_insert(m: Counts, replica: Seq<char>, count: u64)
    requires
        m.dom().finite(),
    ensures
        total(m.insert(replica, count)) == total(m) - count_of(m, replica) + count,
{
    if m.dom().contains(replica) {
        lemma_total_remove(m, replica);
        let rest = m.remove(replica);
        assert(rest.insert(replica, count) =~= m.insert(replica, count));
        lemma_total_insert_new(rest, replica, count);
    } else {
        lemma_total_insert_new(m, replica, count);
    }
}

/// A counter with no more entries and no larger counts has no larger value.
pub proof fn lemma_total_monotone(a: Counts, b: Counts)
    requires
        a.dom().finite(),
        b.dom().finite(),
        counts_le(a, b),
    ensures
        total(a) <= total(b),
    decreases b.dom().len(),
{
    if b.dom().len() == 0 {
        assert(a.dom() =~= Set::<Seq<char>>::empty());
        assert(a =~= b);
    } else {
        let k = b.dom().choose();
        lemma_total_remove(b, k);
        let b1 = b.remove(k);
        let a1 = a.remove(k);
        lemma_total_monotone(a1, b1);
        if a.dom().contains(k) {
            lemma_total_remove(a, k);
        } else {
            assert(a1 =~= a);
        }
    }
}

/// Merging is commutative: the join of two counters does not depend on
/// which of them absorbs the other.
pub proof fn lemma_join_commutative(a: Counts, b: Counts)
    ensures
        join(a, b) == join(b, a),
{
}

/// Merging is idempotent: a counter joined with itself is unchanged.
pub proof fn lemma_join_idempotent(a: Counts)
    ensures
        join(a, a) == a,
{
}

/// Merging is associative: three counters join to the same counter
/// whichever two are joined first.
pub proof fn lemma_join_associative(a: Counts, b: Counts, c: Counts)
    ensures
        join(join(a, b), c) == join(a, join(b, c)),
{
}

/// Merging never lowers a count, nor drops an entry: each of the two
/// counters is below their join.
pub proof fn lemma_join_upper_bound(a: Counts, b: Counts)
    ensures
        counts_le(a, join(a, b)),
        counts_le(b, join(a, b)),
{
}

/// Merging with the empty counter changes nothing.
pub proof fn lemma_join_empty(a: Counts)
    ensures
        join(a, Map::<Seq<char>, u64>::empty()) == a,
        join(Map::<Seq<char>, u64>::empty(), a) == a,
{
}

/// Merging never lowers the value of a counter.
pub proof fn lemma_join_total_monotone(a: Counts, b: Counts)
    requires
        a.dom().finite(),
        b.dom().finite(),
    ensures
        join(a, b).dom().finite(),
        total(a) <= total(join(a, b)),
        total(b) <= total(join(a, b)),
{
    assert(join(a, b).dom() =~= a.dom().union(b.dom()));
    lemma_join_upper_bound(a, b);
    lemma_total_monotone(a, join(a, b));
    lemma_total_monotone(b, join(a, b));
}

/// Joining in one more entry of the other counter sets the count of its
/// replica to the larger of the two.
proof fn lemma_join_step(a: Counts, b: Counts, replica: Seq<char>, count: u64)
    requires
        !b.dom().contains(replica),
    ensures
        join(a, b.insert(replica, count)) == join(a, b).insert(
            replica,
            if count_of(join(a, b), replica) >= count {
                count_of(join(a, b), replica)
            } else {
                count
            },
        ),
{
}

/// A grow-only counter: for each replica that has counted, how often.
#[derive(Debug, PartialEq)]
pub struct GCounter {
    nodes: Vec<(String, u64)>,
}

impl View for GCounter {
    type V = Counts;

    /// The counts of the counter, replica by replica.
    closed spec fn view(&self) -> Counts {
        to_map(self.nodes@)
    }
}

impl GCounter {
    /// The entries are kept in ascending order of the replicas' names, each
    /// replica once.
    pub closed spec fn wf(&self) -> bool {
        sorted(self.nodes@)
    }

    /// The entries in the order in which they are kept: ascending by the
    /// replica's name.
    pub closed spec fn entries(&self) -> Seq<(Seq<char>, u64)> {
        Seq::new(self.nodes@.len(), |i: int| (self.nodes@[i].0@, self.nodes@[i].1))
    }

    /// The value of the counter as a number without bound.
    pub open spec fn spec_value(&self) -> nat {
        total(self@)
    }

    /// A well-formed counter has finitely many entries.
    pub proof fn lemma_finite(&self)
        requires
            self.wf(),
        ensures
            self@.dom().finite(),
    {
        lemma_to_map_finite(self.nodes@);
    }

    /// A counter without entries.
    pub fn new() -> (counter: Self)
        ensures
            counter.wf(),
            counter@ == Map::<Seq<char>, u64>::empty(),
            counter.entries() == Seq::<(Seq<char>, u64)>::empty(),
    {
        let counter = GCounter { nodes: Vec::new() };
        proof {
            lemma_to_map_empty(counter.nodes@);
        }
        counter
    }

    /// The number of entries.
    pub fn len(&self) -> (n: usize)
        ensures
            n == self.entries().len(),
    {
        self.nodes.len()
    }

    /// The entry at place `i`, in ascending order of the replicas' names:
    /// the replica and its count.
    pub fn entry(&self, i: usize) -> (e: (&str, u64))
        requires
            i < self.entries().len(),
        ensures
            e.0@ == self.entries()[i as int].0,
            e.1 == self.entries()[i as int].1,
    {
        (self.nodes[i].0.as_str(), self.nodes[i].1)
    }

    /// The entries of a well-formed counter ascend strictly by name, and
    /// they are what the counter maps: each replica of an entry to its
    /// count, and no other.
    pub proof fn lemma_entries(&self)
        requires
            self.wf(),
        ensures
            ascending(self.entries()),
            forall|i: int|
                0 <= i < self.entries().len() ==> self@.dom().contains(
                    (#[trigger] self.entries()[i]).0,
                ) && self@[self.entries()[i].0] == self.entries()[i].1,
            forall|replica: Seq<char>| #[trigger]
                self@.dom().contains(replica) ==> exists|i: int|
                    0 <= i < self.entries().len() && (#[trigger] self.entries()[i]).0 == replica,
    {
        let e = self.entries();
        assert forall|i: int| 0 <= i < e.len() implies self@.dom().contains((#[trigger] e[i]).0)
            && self@[e[i].0] == e[i].1 by {
            lemma_to_map_at(self.nodes@, i);
        }
        assert forall|replica: Seq<char>| #[trigger] self@.dom().contains(replica) implies exists|
            i: int,
        |
            0 <= i < e.len() && (#[trigger] e[i]).0 == replica by {
            let i = index_of(self.nodes@, replica);
            assert(e[i].0 == replica);
        }
    }

    /// Two well-formed counters have the same entries exactly if they have
    /// the same counts: a counter has one list of entries.
    pub proof fn lemma_entries_determined(&self, other: &GCounter)
        requires
            self.wf(),
            other.wf(),
        ensures
            (self.entries() == other.entries()) <==> (self@ == other@),
    {
        let a = self.nodes@;
        let b = other.nodes@;
        if self.entries() == other.entries() {
            assert(a.len() == self.entries().len());
            assert forall|i: int| 0 <= i < a.len() implies (#[trigger] a[i]).0@ == b[i].0@ && a[i].1
                == b[i].1 by {
                assert(self.entries()[i] == other.entries()[i]);
            }
            assert forall|k: Seq<char>|
                #![trigger self@.dom().contains(k)]
                self@.dom().contains(k) == other@.dom().contains(k) && (self@.dom().contains(k)
                    ==> self@[k] == other@[k]) by {
                if has_key(a, k) {
                    let i = index_of(a, k);
                    lemma_to_map_at(a, i);
                    lemma_to_map_at(b, i);
                }
                if has_key(b, k) {
                    let i = index_of(b, k);
                    assert(a[i].0@ == k);
                }
            }
            assert(self@ =~= other@);
        }
        if self@ == other@ {
            assert forall|k: Seq<char>| has_key(a, k) == has_key(b, k) by {
                assert(self@.dom().contains(k) == other@.dom().contains(k));
            }
            lemma_same_names(a, b);
            assert forall|i: int| 0 <= i < a.len() implies self.entries()[i]
                == other.entries()[i] by {
                lemma_to_map_at(a, i);
                lemma_to_map_at(b, i);
            }
            assert(self.entries() =~= other.entries());
        }
    }

    /// Adds an entry behind all others. The replica's name must come
    /// after the name of the last entry; where it does not, nothing is
    /// added and the answer is `false`.
    pub fn push_entry(&mut self, node: String, count: u64) -> (added: bool)
        requires
            old(self).wf(),
        ensures
            final(self).wf(),
            added == (old(self).entries().len() == 0 || key_lt(
                old(self).entries().last().0,
                node@,
            )),
            added ==> final(self).entries() == old(self).entries().push((node@, count)),
            !added ==> final(self).entries() == old(self).entries(),
    {
        let n = self.nodes.len();
        if n > 0 {
            match compare(self.nodes[n - 1].0.as_str(), node.as_str()) {
                KeyOrder::Before => {},
                _ => {
                    proof {
                        lemma_key_lt_trichotomy(self.nodes@[n - 1].0@, node@);
                    }
                    return false;
                },
            }
        }
        proof {
            assert forall|j: int| 0 <= j < n implies key_lt(
                (#[trigger] self.nodes@[j]).0@,
                node@,
            ) by {
                if j < n - 1 {
                    lemma_key_lt_transitive(self.nodes@[j].0@, self.nodes@[n - 1].0@, node@);
                }
            }
            lemma_insert(self.nodes@, n as int, (node, count));
        }
        let ghost before = self.entries();
        self.nodes.push((node, count));
        true
    }

    /// The count of one replica, 0 where it has no entry.
    pub fn get(&self, node: &str) -> (count: u64)
        requires
            self.wf(),
        ensures
            count == count_of(self@, node@),
    {
        match search(&self.nodes, node) {
            Ok(at) => {
                proof {
                    lemma_to_map_at(self.nodes@, at as int);
                }
                self.nodes[at].1
            },
            Err(at) => {
                proof {
                    lemma_belongs_absent(self.nodes@, node@, at as int);
                }
                0
            },
        }
    }

    /// Counts one more event of the replica `node`.
    pub fn increment(&mut self, node: String)
        requires
            old(self).wf(),
            count_of(old(self)@, node@) < u64::MAX,
        ensures
            final(self).wf(),
            final(self)@ == old(self)@.insert(node@, (count_of(old(self)@, node@) + 1) as u64),
    {
        match search(&self.nodes, node.as_str()) {
            Ok(at) => {
                let count: u64 = self.nodes[at].1;
                proof {
                    lemma_to_map_at(self.nodes@, at as int);
                    lemma_update(self.nodes@, at as int, (node, (count + 1) as u64));
                }
                self.nodes.set(at, (node, count + 1));
            },
            Err(at) => {
                proof {
                    lemma_belongs_absent(self.nodes@, node@, at as int);
                    lemma_insert(self.nodes@, at as int, (node, 1u64));
                }
                self.nodes.insert(at, (node, 1));
            },
        }
    }

    /// Absorbs another counter: afterwards every replica has the larger of
    /// its two counts.
    pub fn merge(&mut self, other: &GCounter)
        requires
            old(self).wf(),
            other.wf(),
        ensures
            final(self).wf(),
            final(self)@ == join(old(self)@, other@),
    {
        let mut i: usize = 0;
        proof {
            lemma_to_map_empty(other.nodes@.take(0));
            lemma_join_empty(self@);
        }
        while i < other.nodes.len()
            invariant
                i <= other.nodes.len(),
                sorted(self.nodes@),
                sorted(other.nodes@),
                to_map(self.nodes@) == join(old(self)@, to_map(other.nodes@.take(i as int))),
            decreases other.nodes.len() - i,
        {
            let value: u64 = other.nodes[i].1;
            let ghost seen = to_map(other.nodes@.take(i as int));
            let ghost name = other.nodes@[i as int].0@;
            proof {
                lemma_take_next(other.nodes@, i as int);
                lemma_join_step(old(self)@, seen, name, value);
            }
            match search(&self.nodes, other.nodes[i].0.as_str()) {
                Ok(at) => {
                    proof {
                        lemma_to_map_at(self.nodes@, at as int);
                    }
                    if self.nodes[at].1 < value {
                        let key = other.nodes[i].0.clone();
                        proof {
                            lemma_update(self.nodes@, at as int, (key, value));
                        }
                        self.nodes.set(at, (key, value));
                    }
                },
                Err(at) => {
                    let key = other.nodes[i].0.clone();
                    proof {
                        lemma_belongs_absent(self.nodes@, name, at as int);
                        lemma_insert(self.nodes@, at as int, (key, value));
                    }
                    self.nodes.insert(at, (key, value));
                },
            }
            i = i + 1;
        }
        assert(other.nodes@.take(i as int) =~= other.nodes@);
    }

    /// The value of the counter: the sum of the counts of all replicas.
    pub fn value(&self) -> (sum: u64)
        requires
            self.wf(),
            self.spec_value() <= u64::MAX,
        ensures
            sum == self.spec_value(),
    {
        let mut sum: u64 = 0;
        let mut i: usize = 0;
        proof {
            lemma_to_map_empty(self.nodes@.take(0));
            lemma_total_empty();
        }
        while i < self.nodes.len()
            invariant
                i <= self.nodes.len(),
                sorted(self.nodes@),
                total(to_map(self.nodes@)) <= u64::MAX,
                sum == total(to_map(self.nodes@.take(i as int))),
            decreases self.nodes.len() - i,
        {
            proof {
                lemma_take_next(self.nodes@, i as int);
                lemma_to_map_finite(self.nodes@.take(i as int));
                lemma_total_insert_new(
                    to_map(self.nodes@.take(i as int)),
                    self.nodes@[i as int].0@,
                    self.nodes@[i as int].1,
                );
                Self::lemma_prefix_total(self.nodes@, i + 1);
            }
            sum = sum + self.nodes[i].1;
            i = i + 1;
        }
        assert(self.nodes@.take(i as int) =~= self.nodes@);
        sum
    }

    /// The first `n` entries sum to no more than all of them.
    proof fn lemma_prefix_total(s: Seq<(String, u64)>, n: int)
        requires
            sorted(s),
            0 <= n <= s.len(),
        ensures
            total(to_map(s.take(n))) <= total(to_map(s)),
        decreases s.len() - n,
    {
        if n == s.len() {
            assert(s.take(n) =~= s);
        } else {
            lemma_take_next(s, n);
            lemma_to_map_finite(s.take(n));
            lemma_total_insert_new(to_map(s.take(n)), s[n].0@, s[n].1);
            Self::lemma_prefix_total(s, n + 1);
        }
    }
}

impl Clone for GCounter {
    /// A copy with the same counts.
    fn clone(&self) -> (copy: Self)
        ensures
            copy@ == self@,
            copy.wf() == self.wf(),
            copy.entries() == self.entries(),
    {
        let mut nodes: Vec<(String, u64)> = Vec::new();
        let mut i: usize = 0;
        while i < self.nodes.len()
            invariant
                i <= self.nodes.len(),
                nodes@.len() == i,
                forall|j: int| 0 <= j < i ==> (#[trigger] nodes@[j]) == self.nodes@[j],
            decreases self.nodes.len() - i,
        {
            nodes.push((self.nodes[i].0.clone(), self.nodes[i].1));
            i = i + 1;
        }
        assert(nodes@ =~= self.nodes@);
        GCounter { nodes }
    }
}
} // verus!
