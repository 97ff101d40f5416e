//! Names of replicas and of child nodes, and lists of entries kept in the
//! order of their names.
//!
//! A name is a string. Names are ordered by their UTF-8 bytes, byte by byte,
//! a proper prefix coming first. Every keyed list of the crate keeps its
//! entries strictly ascending in that order, so that one mapping has exactly
//! one list, and whatever walks a list (hashing, encoding) meets the entries
//! in the same order on every replica.
use vstd::prelude::*;
use vstd::utf8::encode_utf8;
use vstd::utf8::encode_utf8_decode_utf8;

verus! {
/// `a` comes before `b` in the byte-lexicographic order.
pub open spec fn bytes_lt(a: Seq<u8>, b: Seq<u8>) -> bool
    decreases a.len(),
{
    if b.len() == 0 {
        false
    } else if a.len() == 0 {
        true
    } else if a[0] != b[0] {
        a[0] < b[0]
    } else {
        bytes_lt(a.drop_first(), b.drop_first())
    }
}

/// The name `a` comes before the name `b`.
pub open spec fn key_lt(a: Seq<char>, b: Seq<char>) -> bool {
    bytes_lt(encode_utf8(a), encode_utf8(b))
}

/// No byte string comes before itself.
pub proof fn lemma_bytes_lt_irreflexive(a: Seq<u8>)
    ensures
        !bytes_lt(a, a),
    decreases a.len(),
{
    if a.len() > 0 {
        lemma_bytes_lt_irreflexive(a.drop_first());
    }
}

/// The order on byte strings is transitive.
pub proof fn lemma_bytes_lt_transitive(a: Seq<u8>, b: Seq<u8>, c: Seq<u8>)
    requires
        bytes_lt(a, b),
        bytes_lt(b, c),
    ensures
        bytes_lt(a, c),
    decreases a.len(),
{
    if a.len() > 0 && a[0] == b[0] && b[0] == c[0] {
        lemma_bytes_lt_transitive(a.drop_first(), b.drop_first(), c.drop_first());
    }
}

/// Of two different byte strings one comes before the other.
pub proof fn lemma_bytes_lt_total(a: Seq<u8>, b: Seq<u8>)
    ensures
        a == b || bytes_lt(a, b) || bytes_lt(b, a),
    decreases a.len(),
{
    if a.len() > 0 && b.len() > 0 && a[0] == b[0] {
        lemma_bytes_lt_total(a.drop_first(), b.drop_first());
        if a.drop_first() == b.drop_first() {
            assert(a =~= seq![a[0]] + a.drop_first());
        }
    }
}

/// Beyond a common prefix of length `n`, the order of two byte strings is
/// the order of what follows the prefix.
pub proof fn lemma_bytes_lt_skip(a: Seq<u8>, b: Seq<u8>, n: int)
    requires
        0 <= n <= a.len(),
        n <= b.len(),
        a.take(n) == b.take(n),
    ensures
        bytes_lt(a, b) == bytes_lt(a.skip(n), b.skip(n)),
    decreases n,
{
    if n == 0 {
        assert(a.skip(0) =~= a);
        assert(b.skip(0) =~= b);
    } else {
        assert(a[0] == a.take(n)[0]);
        let a1 = a.drop_first();
        let b1 = b.drop_first();
        assert(a1.take(n - 1) =~= a.take(n).drop_first());
        assert(b1.take(n - 1) =~= b.take(n).drop_first());
        lemma_bytes_lt_skip(a1, b1, n - 1);
        assert(a1.skip(n - 1) =~= a.skip(n));
        assert(b1.skip(n - 1) =~= b.skip(n));
    }
}

/// No name comes before itself.
pub proof fn lemma_key_lt_irreflexive(a: Seq<char>)
    ensures
        !key_lt(a, a),
{
    lemma_bytes_lt_irreflexive(encode_utf8(a));
}

/// The order on names is transitive.
pub proof fn lemma_key_lt_transitive(a: Seq<char>, b: Seq<char>, c: Seq<char>)
    requires
        key_lt(a, b),
        key_lt(b, c),
    ensures
        key_lt(a, c),
{
    lemma_bytes_lt_transitive(encode_utf8(a), encode_utf8(b), encode_utf8(c));
}

/// Of two names exactly one holds: they are equal, the first comes before
/// the second, or the second before the first.
pub proof fn lemma_key_lt_trichotomy(a: Seq<char>, b: Seq<char>)
    ensures
        a == b || key_lt(a, b) || key_lt(b, a),
        !(key_lt(a, b) && key_lt(b, a)),
        a == b ==> !key_lt(a, b),
{
    lemma_bytes_lt_total(encode_utf8(a), encode_utf8(b));
    encode_utf8_decode_utf8(a);
    encode_utf8_decode_utf8(b);
    lemma_bytes_lt_irreflexive(encode_utf8(a));
    if key_lt(a, b) && key_lt(b, a) {
        lemma_bytes_lt_transitive(encode_utf8(a), encode_utf8(b), encode_utf8(a));
    }
}

/// How one name stands to another.
#[derive(Clone, Copy, Debug, PartialEq, Eq)]
pub enum KeyOrder {
    /// The first name comes before the second.
    Before,
    /// The two names are the same.
    Same,
    /// The first name comes after the second.
    After,
}

/// Says how the byte string `x` stands to `y` in the order of byte
/// strings.
pub fn compare_bytes(x: &[u8], y: &[u8]) -> (order: KeyOrder)
    ensures
        order is Before <==> bytes_lt(x@, y@),
        order is Same <==> x@ == y@,
        order is After <==> bytes_lt(y@, x@),
{
    let mut i: usize = 0;
    proof {
        lemma_bytes_lt_total(x@, y@);
        lemma_bytes_lt_irreflexive(x@);
        if bytes_lt(x@, y@) && bytes_lt(y@, x@) {
            lemma_bytes_lt_transitive(x@, y@, x@);
        }
    }
    while i < x.len() && i < y.len()
        invariant
            i <= x.len(),
            i <= y.len(),
            x@.take(i as int) == y@.take(i as int),
        decreases x.len() - i,
    {
        if x[i] != y[i] {
            proof {
                lemma_bytes_lt_skip(x@, y@, i as int);
                lemma_bytes_lt_skip(y@, x@, i as int);
            }
            if x[i] < y[i] {
                return KeyOrder::Before;
            } else {
                return KeyOrder::After;
            }
        }
        i = i + 1;
    }
    proof {
        lemma_bytes_lt_skip(x@, y@, i as int);
        lemma_bytes_lt_skip(y@, x@, i as int);
    }
    if x.len() < y.len() {
        KeyOrder::Before
    } else if x.len() > y.len() {
        KeyOrder::After
    } else {
        KeyOrder::Same
    }
}

/// Says how `a` stands to `b` in the order of names.
pub fn compare(a: &str, b: &str) -> (order: KeyOrder)
    ensures
        order is Before <==> key_lt(a@, b@),
        order is Same <==> a@ == b@,
        order is After <==> key_lt(b@, a@),
{
    proof {
        lemma_key_lt_trichotomy(a@, b@);
        encode_utf8_decode_utf8(a@);
        encode_utf8_decode_utf8(b@);
    }
    compare_bytes(a.as_bytes(), b.as_bytes())
}

/// The entries stand in strictly ascending order of their names.
pub open spec fn sorted<V>(s: Seq<(String, V)>) -> bool {
    forall|i: int, j: int| 0 <= i < j < s.len() ==> key_lt(#[trigger] s[i].0@, #[trigger] s[j].0@)
}

/// The names of the entries ascend strictly: each comes before the next,
/// so that no name occurs twice.
pub open spec fn ascending<V>(s: Seq<(Seq<char>, V)>) -> bool {
    forall|i: int, j: int| 0 <= i < j < s.len() ==> key_lt(#[trigger] s[i].0, #[trigger] s[j].0)
}

/// Some entry of the list has the name `k`.
pub open spec fn has_key<V>(s: Seq<(String, V)>, k: Seq<char>) -> bool {
    exists|i: int| 0 <= i < s.len() && (#[trigger] s[i]).0@ == k
}

/// The place of the entry named `k`, where there is one.
pub open spec fn index_of<V>(s: Seq<(String, V)>, k: Seq<char>) -> int {
    choose|i: int| 0 <= i < s.len() && (#[trigger] s[i]).0@ == k
}

/// The mapping that a list of entries stands for: each name to what is
/// stored under it.
pub open spec fn to_map<V>(s: Seq<(String, V)>) -> Map<Seq<char>, V> {
    Map::new(|k: Seq<char>| has_key(s, k), |k: Seq<char>| s[index_of(s, k)].1)
}

/// Every name before place `at` comes before `k`, and `k` comes before
/// every name from `at` on: `at` is where an entry named `k` belongs.
pub open spec fn belongs_at<V>(s: Seq<(String, V)>, k: Seq<char>, at: int) -> bool {
    &&& 0 <= at <= s.len()
    &&& forall|j: int| 0 <= j < at ==> key_lt((#[trigger] s[j]).0@, k)
    &&& forall|j: int| at <= j < s.len() ==> key_lt(k, (#[trigger] s[j]).0@)
}

/// In a sorted list two different places hold different names.
pub proof fn lemma_sorted_distinct<V>(s: Seq<(String, V)>, i: int, j: int)
    requires
        sorted(s),
        0 <= i < s.len(),
        0 <= j < s.len(),
        i != j,
    ensures
        s[i].0@ != s[j].0@,
{
    lemma_key_lt_irreflexive(s[i].0@);
}

/// In a sorted list the entry at place `i` is the one that its name maps to.
pub proof fn lemma_to_map_at<V>(s: Seq<(String, V)>, i: int)
    requires
        sorted(s),
        0 <= i < s.len(),
    ensures
        has_key(s, s[i].0@),
        index_of(s, s[i].0@) == i,
        to_map(s).dom().contains(s[i].0@),
        to_map(s)[s[i].0@] == s[i].1,
{
    let k = s[i].0@;
    let j = index_of(s, k);
    if j != i {
        lemma_sorted_distinct(s, i, j);
    }
}

/// A name that belongs at some place of a sorted list is not in the list.
pub proof fn lemma_belongs_absent<V>(s: Seq<(String, V)>, k: Seq<char>, at: int)
    requires
        belongs_at(s, k, at),
    ensures
        !has_key(s, k),
        !to_map(s).dom().contains(k),
{
    if has_key(s, k) {
        lemma_key_lt_irreflexive(k);
    }
}

/// Putting a new entry where its name belongs keeps the list sorted and
/// adds the entry to the mapping.
pub proof fn lemma_insert<V>(s: Seq<(String, V)>, at: int, e: (String, V))
    requires
        sorted(s),
        belongs_at(s, e.0@, at),
    ensures
        sorted(s.insert(at, e)),
        to_map(s.insert(at, e)) == to_map(s).insert(e.0@, e.1),
{
    let t = s.insert(at, e);
    let m = to_map(s).insert(e.0@, e.1);
    assert forall|k: Seq<char>| to_map(t).dom().contains(k) == m.dom().contains(k) by {
        if has_key(t, k) {
            let i = index_of(t, k);
        }
        if has_key(s, k) {
            let i = index_of(s, k);
            if i < at {
                assert(t[i].0@ == k);
            } else {
                assert(t[i + 1].0@ == k);
            }
        }
        if k == e.0@ {
            assert(t[at].0@ == k);
        }
    }
    assert forall|k: Seq<char>| to_map(t).dom().contains(k) implies to_map(t)[k] == m[k] by {
        let i = index_of(t, k);
        lemma_to_map_at(t, i);
        if i < at {
            lemma_sorted_distinct(t, i, at);
            lemma_to_map_at(s, i);
        } else if i > at {
            lemma_sorted_distinct(t, i, at);
            lemma_to_map_at(s, i - 1);
        }
    }
}

/// Replacing what is stored under a name keeps the list sorted and
/// changes the mapping at that name only.
pub proof fn lemma_update<V>(s: Seq<(String, V)>, at: int, e: (String, V))
    requires
        sorted(s),
        0 <= at < s.len(),
        s[at].0@ == e.0@,
    ensures
        sorted(s.update(at, e)),
        to_map(s.update(at, e)) == to_map(s).insert(e.0@, e.1),
{
    let t = s.update(at, e);
    let m = to_map(s).insert(e.0@, e.1);
    assert forall|k: Seq<char>| to_map(t).dom().contains(k) == m.dom().contains(k) by {
        if has_key(t, k) {
            let i = index_of(t, k);
        }
        if has_key(s, k) {
            let i = index_of(s, k);
            assert(t[i].0@ == k);
        }
    }
    assert forall|k: Seq<char>| to_map(t).dom().contains(k) implies to_map(t)[k] == m[k] by {
        let i = index_of(t, k);
        lemma_to_map_at(t, i);
        if i != at {
            lemma_sorted_distinct(t, i, at);
            lemma_to_map_at(s, i);
        }
    }
}

/// The first `n + 1` entries of a sorted list stand for the mapping of the
/// first `n`, with entry `n` added; its name is not among the first `n`.
pub proof fn lemma_take_next<V>(s: Seq<(String, V)>, n: int)
    requires
        sorted(s),
        0 <= n < s.len(),
    ensures
        sorted(s.take(n)),
        sorted(s.take(n + 1)),
        !to_map(s.take(n)).dom().contains(s[n].0@),
        to_map(s.take(n + 1)) == to_map(s.take(n)).insert(s[n].0@, s[n].1),
{
    let a = s.take(n);
    lemma_belongs_absent(a, s[n].0@, n);
    lemma_insert(a, n, s[n]);
    assert(a.insert(n, s[n]) =~= s.take(n + 1));
}

/// The mapping of the empty list is empty, and that of a whole list is
/// that of all its entries.
pub proof fn lemma_to_map_empty<V>(s: Seq<(String, V)>)
    requires
        s.len() == 0,
    ensures
        to_map(s) == Map::<Seq<char>, V>::empty(),
{
}

/// A list of entries stands for a mapping with finitely many names.
pub proof fn lemma_to_map_finite<V>(s: Seq<(String, V)>)
    requires
        sorted(s),
    ensures
        to_map(s).dom().finite(),
    decreases s.len(),
{
    if s.len() == 0 {
        lemma_to_map_empty(s);
    } else {
        let n = s.len() - 1;
        lemma_take_next(s, n);
        assert(s.take(n + 1) =~= s);
        lemma_to_map_finite(s.take(n));
    }
}

/// Two sorted lists with the same names hold them at the same places.
pub proof fn lemma_same_names<V, W>(s: Seq<(String, V)>, t: Seq<(String, W)>)
    requires
        sorted(s),
        sorted(t),
        forall|k: Seq<char>| has_key(s, k) == has_key(t, k),
    ensures
        s.len() == t.len(),
        forall|i: int| 0 <= i < s.len() ==> (#[trigger] s[i]).0@ == t[i].0@,
    decreases s.len(),
{
    if s.len() == 0 {
        if t.len() > 0 {
            assert(has_key(t, t[0].0@));
        }
    } else {
        assert(has_key(s, s[0].0@));
        let a = index_of(t, s[0].0@);
        assert(has_key(t, t[0].0@));
        let b = index_of(s, t[0].0@);
        // The least name of each list is the least name of the other.
        if a > 0 && b > 0 {
            lemma_key_lt_trichotomy(s[0].0@, t[0].0@);
        }
        if a > 0 && b == 0 {
            lemma_key_lt_irreflexive(s[0].0@);
        }
        if a == 0 && b > 0 {
            lemma_key_lt_irreflexive(t[0].0@);
        }
        let s1 = s.drop_first();
        let t1 = t.drop_first();
        assert forall|k: Seq<char>| has_key(s1, k) == has_key(t1, k) by {
            if has_key(s1, k) {
                let i = index_of(s1, k);
                lemma_sorted_distinct(s, 0, i + 1);
                assert(has_key(s, k));
                let j = index_of(t, k);
                assert(t1[j - 1].0@ == k);
            }
            if has_key(t1, k) {
                let i = index_of(t1, k);
                lemma_sorted_distinct(t, 0, i + 1);
                assert(has_key(t, k));
                let j = index_of(s, k);
                assert(s1[j - 1].0@ == k);
            }
        }
        lemma_same_names(s1, t1);
        assert forall|i: int| 0 <= i < s.len() implies (#[trigger] s[i]).0@ == t[i].0@ by {
            if i > 0 {
                assert(s1[i - 1].0@ == t1[i - 1].0@);
            }
        }
    }
}

/// Looks a name up in a sorted list: `Ok` with the place of its entry, or
/// `Err` with the place where an entry of that name belongs.
pub fn search<V>(entries: &Vec<(String, V)>, key: &str) -> (found: Result<usize, usize>)
    requires
        sorted(entries@),
    ensures
        match found {
            Ok(at) => at < entries.len() && entries[at as int].0@ == key@,
            Err(at) => belongs_at(entries@, key@, at as int),
        },
{
    let mut lo: usize = 0;
    let mut hi: usize = entries.len();
    while lo < hi
        invariant
            lo <= hi <= entries.len(),
            sorted(entries@),
            forall|j: int| 0 <= j < lo ==> key_lt((#[trigger] entries@[j]).0@, key@),
            forall|j: int| hi <= j < entries.len() ==> key_lt(key@, (#[trigger] entries@[j]).0@),
        decreases hi - lo,
    {
        let mid: usize = lo + (hi - lo) / 2;
        match compare(entries[mid].0.as_str(), key) {
            KeyOrder::Same => {
                return Ok(mid);
            },
            KeyOrder::Before => {
                assert forall|j: int| 0 <= j < mid + 1 implies key_lt(
                    (#[trigger] entries@[j]).0@,
                    key@,
                ) by {
                    if j < mid {
                        lemma_key_lt_transitive(entries@[j].0@, entries@[mid as int].0@, key@);
                    }
                }
                lo = mid + 1;
            },
            KeyOrder::After => {
                assert forall|j: int| mid <= j < entries.len() implies key_lt(
                    key@,
                    (#[trigger] entries@[j]).0@,
                ) by {
                    if j > mid {
                        lemma_key_lt_transitive(key@, entries@[mid as int].0@, entries@[j].0@);
                    }
                }
                hi = mid;
            },
        }
    }
    Err(lo)
}
} // verus!
