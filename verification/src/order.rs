//! Orders: the dictionary order of sequences, of strings in particular, and
//! what makes a relation fit to sort by.

use vstd::prelude::*;
use vstd::relations::*;
use vstd::string::*;

verus! {

/// The dictionary order that `lt` induces on sequences: the first position at
/// which two sequences differ decides, and a proper prefix comes first.
pub open spec fn seq_less<T>(a: Seq<T>, b: Seq<T>, lt: spec_fn(T, T) -> bool) -> bool
    decreases a.len(),
{
    if b.len() == 0 {
        false
    } else if a.len() == 0 {
        true
    } else if lt(a[0], b[0]) {
        true
    } else if lt(b[0], a[0]) {
        false
    } else {
        seq_less(a.skip(1), b.skip(1), lt)
    }
}

/// The dictionary order as a relation.
pub open spec fn seq_order<T>(lt: spec_fn(T, T) -> bool) -> spec_fn(Seq<T>, Seq<T>) -> bool {
    |a: Seq<T>, b: Seq<T>| seq_less(a, b, lt)
}

/// No sequence stands before itself.
proof fn lemma_seq_less_irreflexive<T>(a: Seq<T>, lt: spec_fn(T, T) -> bool)
    requires
        strict_total_ordering(lt),
    ensures
        !seq_less(a, a, lt),
    decreases a.len(),
{
    if a.len() > 0 {
        assert(lt(a[0], a[0]) == false);
        lemma_seq_less_irreflexive(a.skip(1), lt);
    }
}

/// Two sequences of which neither stands before the other are equal.
proof fn lemma_seq_less_connected<T>(a: Seq<T>, b: Seq<T>, lt: spec_fn(T, T) -> bool)
    requires
        strict_total_ordering(lt),
        !seq_less(a, b, lt),
        !seq_less(b, a, lt),
    ensures
        a == b,
    decreases a.len(),
{
    if a.len() == 0 || b.len() == 0 {
        assert(a =~= b);
    } else {
        assert(!lt(a[0], b[0]) && !lt(b[0], a[0]));
        assert(a[0] == b[0]);
        lemma_seq_less_connected(a.skip(1), b.skip(1), lt);
        assert(a =~= seq![a[0]] + a.skip(1));
        assert(b =~= seq![b[0]] + b.skip(1));
    }
}

/// What stands before a sequence stands before all that the sequence stands
/// before.
proof fn lemma_seq_less_transitive<T>(a: Seq<T>, b: Seq<T>, c: Seq<T>, lt: spec_fn(T, T) -> bool)
    requires
        strict_total_ordering(lt),
        seq_less(a, b, lt),
        seq_less(b, c, lt),
    ensures
        seq_less(a, c, lt),
    decreases a.len(),
{
    if a.len() > 0 {
        let (x, y, z) = (a[0], b[0], c[0]);
        assert(lt(x, x) == false && lt(y, y) == false && lt(z, z) == false);
        if lt(x, y) {
            if lt(y, z) {
                assert(lt(x, z));
            } else {
                assert(!lt(z, y));
                assert(y == z);
            }
        } else {
            assert(!lt(y, x));
            assert(x == y);
            if !lt(y, z) {
                assert(!lt(z, y));
                assert(y == z);
                lemma_seq_less_transitive(a.skip(1), b.skip(1), c.skip(1), lt);
            }
        }
        if lt(x, z) && lt(z, x) {
            assert(lt(x, x));
        }
    }
}

/// The dictionary order of a strict total order is a strict total order.
pub proof fn lemma_seq_order_is_total<T>(lt: spec_fn(T, T) -> bool)
    requires
        strict_total_ordering(lt),
    ensures
        strict_total_ordering(seq_order(lt)),
{
    let r = seq_order(lt);
    assert forall|x: Seq<T>| #[trigger] r(x, x) == false by {
        lemma_seq_less_irreflexive(x, lt);
    }
    assert forall|x: Seq<T>, y: Seq<T>, z: Seq<T>| #[trigger] r(x, y) && #[trigger] r(y, z) implies r(
        x,
        z,
    ) by {
        lemma_seq_less_transitive(x, y, z, lt);
    }
    assert forall|x: Seq<T>, y: Seq<T>| #[trigger] r(x, y) && #[trigger] r(y, x) implies x == y by {
        lemma_seq_less_transitive(x, y, x, lt);
        lemma_seq_less_irreflexive(x, lt);
    }
    assert forall|x: Seq<T>, y: Seq<T>| x != y implies #[trigger] r(x, y) || #[trigger] r(y, x) by {
        if !r(x, y) && !r(y, x) {
            lemma_seq_less_connected(x, y, lt);
        }
    }
}

/// The order of characters: by code point.
pub open spec fn char_order() -> spec_fn(char, char) -> bool {
    |x: char, y: char| x < y
}

/// The order of strings: the dictionary order by code point.
pub open spec fn str_less(a: Seq<char>, b: Seq<char>) -> bool {
    seq_less(a, b, char_order())
}

/// The order of strings as a relation.
pub open spec fn str_order() -> spec_fn(Seq<char>, Seq<char>) -> bool {
    seq_order(char_order())
}

/// The order of rows of strings: the dictionary order over the order of strings.
pub open spec fn row_less(a: Seq<Seq<char>>, b: Seq<Seq<char>>) -> bool {
    seq_less(a, b, str_order())
}

/// Characters are strictly and totally ordered.
pub proof fn lemma_char_order_is_total()
    ensures
        strict_total_ordering(char_order()),
{
    let r = char_order();
    assert forall|x: char, y: char| x != y implies #[trigger] r(x, y) || #[trigger] r(y, x) by {
        if !(x < y) && !(y < x) {
            assert(x as int == y as int);
            assert(x == (x as int) as char);
            assert(y == (y as int) as char);
        }
    }
}

/// Strings are strictly and totally ordered.
pub proof fn lemma_str_order_is_total()
    ensures
        strict_total_ordering(str_order()),
{
    lemma_char_order_is_total();
    lemma_seq_order_is_total(char_order());
}

/// Rows of strings are strictly and totally ordered.
pub proof fn lemma_row_order_is_total()
    ensures
        strict_total_ordering(seq_order(str_order())),
{
    lemma_str_order_is_total();
    lemma_seq_order_is_total(str_order());
}

/// The order of integers.
pub open spec fn int_order() -> spec_fn(int, int) -> bool {
    |x: int, y: int| x < y
}

/// A relation turned round: `a` stands before `b` where `b` stood before `a`.
pub open spec fn descending<T>(r: spec_fn(T, T) -> bool) -> spec_fn(T, T) -> bool {
    |a: T, b: T| r(b, a)
}

/// The order of pairs: the first parts decide, and the second parts where
/// the first are equal.
pub open spec fn pair_order<A, B>(first: spec_fn(A, A) -> bool, second: spec_fn(B, B) -> bool)
    -> spec_fn((A, B), (A, B)) -> bool {
    |x: (A, B), y: (A, B)| first(x.0, y.0) || (x.0 == y.0 && second(x.1, y.1))
}

/// Integers are strictly and totally ordered.
pub proof fn lemma_int_order_is_total()
    ensures
        strict_total_ordering(int_order()),
{
}

/// A strict total order turned round is a strict total order.
pub proof fn lemma_descending_is_total<T>(r: spec_fn(T, T) -> bool)
    requires
        strict_total_ordering(r),
    ensures
        strict_total_ordering(descending(r)),
{
    let d = descending(r);
    assert forall|x: T| #[trigger] d(x, x) == false by {
        assert(r(x, x) == false);
    }
    assert forall|x: T, y: T, z: T| #[trigger] d(x, y) && #[trigger] d(y, z) implies d(x, z) by {
        assert(r(z, y) && r(y, x));
    }
    assert forall|x: T, y: T| #[trigger] d(x, y) && #[trigger] d(y, x) implies x == y by {
        assert(r(y, x) && r(x, y));
    }
    assert forall|x: T, y: T| x != y implies #[trigger] d(x, y) || #[trigger] d(y, x) by {
        assert(r(x, y) || r(y, x));
    }
}

/// The order of pairs over two strict total orders is a strict total order.
pub proof fn lemma_pair_order_is_total<A, B>(
    first: spec_fn(A, A) -> bool,
    second: spec_fn(B, B) -> bool,
)
    requires
        strict_total_ordering(first),
        strict_total_ordering(second),
    ensures
        strict_total_ordering(pair_order(first, second)),
{
    let p = pair_order(first, second);
    assert forall|x: (A, B)| #[trigger] p(x, x) == false by {
        assert(first(x.0, x.0) == false);
        assert(second(x.1, x.1) == false);
    }
    assert forall|x: (A, B), y: (A, B), z: (A, B)| #[trigger] p(x, y) && #[trigger] p(
        y,
        z,
    ) implies p(x, z) by {
        if first(x.0, y.0) && first(y.0, z.0) {
            assert(first(x.0, z.0));
        } else if x.0 == y.0 && y.0 == z.0 {
            assert(second(x.1, y.1) && second(y.1, z.1));
            assert(second(x.1, z.1));
        }
    }
    assert forall|x: (A, B), y: (A, B)| #[trigger] p(x, y) && #[trigger] p(y, x) implies x == y by {
        if first(x.0, y.0) && first(y.0, x.0) {
            assert(x.0 == y.0);
            assert(first(x.0, x.0) == false);
        } else if x.0 == y.0 {
            assert(first(x.0, x.0) == false);
            assert(second(x.1, y.1) && second(y.1, x.1));
            assert(x.1 == y.1);
        } else {
            assert(first(x.0, y.0) || first(y.0, x.0));
        }
    }
    assert forall|x: (A, B), y: (A, B)| x != y implies #[trigger] p(x, y) || #[trigger] p(y, x) by {
        if x.0 != y.0 {
            assert(first(x.0, y.0) || first(y.0, x.0));
        } else {
            assert(x.1 != y.1);
            assert(second(x.1, y.1) || second(y.1, x.1));
        }
    }
}

/// The relation "does not stand behind": `a` may precede `b` in a sorted
/// sequence where `b` does not stand before `a`.
pub open spec fn not_behind<T>(r: spec_fn(T, T) -> bool) -> spec_fn(T, T) -> bool {
    |a: T, b: T| !r(b, a)
}

/// Over a strict total order, "does not stand behind" is a total order.
pub proof fn lemma_not_behind_is_total<T>(r: spec_fn(T, T) -> bool)
    requires
        strict_total_ordering(r),
    ensures
        total_ordering(not_behind(r)),
{
    let n = not_behind(r);
    assert forall|x: T| #[trigger] n(x, x) by {
        assert(r(x, x) == false);
    }
    assert forall|x: T, y: T| #[trigger] n(x, y) && #[trigger] n(y, x) implies x == y by {
        if x != y {
            assert(r(x, y) || r(y, x));
        }
    }
    assert forall|x: T, y: T, z: T| #[trigger] n(x, y) && #[trigger] n(y, z) implies n(x, z) by {
        if r(z, x) {
            if x != y {
                assert(r(x, y) || r(y, x));
                assert(r(z, y));
            }
        }
    }
    assert forall|x: T, y: T| #[trigger] n(x, y) || #[trigger] n(y, x) by {
        if r(y, x) && r(x, y) {
            assert(r(x, x));
            assert(r(x, x) == false);
        }
    }
}

/// Whether `a` stands before `b` in the order of strings.
pub fn str_is_less(a: &str, b: &str) -> (r: bool)
    ensures
        r == str_less(a@, b@),
{
    let n = a.unicode_len();
    let m = b.unicode_len();
    let mut i: usize = 0;
    assert(a@.skip(0) =~= a@ && b@.skip(0) =~= b@);
    while i < n && i < m
        invariant
            n == a@.len(),
            m == b@.len(),
            i <= n,
            i <= m,
            str_less(a@, b@) == str_less(a@.skip(i as int), b@.skip(i as int)),
        decreases n - i,
    {
        let x = a.get_char(i);
        let y = b.get_char(i);
        if x < y {
            return true;
        }
        if y < x {
            return false;
        }
        proof {
            assert(a@.skip(i as int).skip(1) =~= a@.skip(i + 1));
            assert(b@.skip(i as int).skip(1) =~= b@.skip(i + 1));
        }
        i += 1;
    }
    i < m
}

/// A type whose values are sorted by a key.
pub trait Ordered: Sized {
    /// What a value is ordered by.
    type Key;

    /// The key of a value.
    spec fn key(&self) -> Self::Key;

    /// Whether key `a` stands before key `b`.
    spec fn before(a: Self::Key, b: Self::Key) -> bool;

    /// The keys are strictly and totally ordered.
    proof fn lemma_before_is_total()
        ensures
            strict_total_ordering(|a: Self::Key, b: Self::Key| Self::before(a, b)),
    ;

    /// Whether this value stands before `other`.
    fn stands_before(&self, other: &Self) -> (r: bool)
        ensures
            r == Self::before(self.key(), other.key()),
    ;
}

/// The order of the keys of `T` as a relation.
pub open spec fn key_order<T: Ordered>() -> spec_fn(T::Key, T::Key) -> bool {
    |a: T::Key, b: T::Key| T::before(a, b)
}

/// The keys of `T` are strictly and totally ordered.
pub proof fn lemma_key_order_is_total<T: Ordered>()
    ensures
        strict_total_ordering(key_order::<T>()),
{
    T::lemma_before_is_total();
    assert(key_order::<T>() =~= (|a: T::Key, b: T::Key| T::before(a, b)));
}

/// The keys of a sequence of values, in the same order.
pub open spec fn keys<T: Ordered>(s: Seq<T>) -> Seq<T::Key> {
    Seq::new(s.len(), |i: int| s[i].key())
}

/// No key stands before one that precedes it in the sequence.
pub open spec fn in_order<T: Ordered>(k: Seq<T::Key>) -> bool {
    forall|i: int, j: int| 0 <= i < j < k.len() ==> !T::before(#[trigger] k[j], #[trigger] k[i])
}

/// Each key stands before every one that follows it in the sequence.
pub open spec fn strictly_in_order<T: Ordered>(k: Seq<T::Key>) -> bool {
    forall|i: int, j: int| 0 <= i < j < k.len() ==> T::before(#[trigger] k[i], #[trigger] k[j])
}

/// Where `x` goes into `sorted`: behind every value that stands before it.
fn insert_position<T: Ordered>(sorted: &Vec<T>, x: &T) -> (i: usize)
    ensures
        i <= sorted@.len(),
        forall|j: int| 0 <= j < i ==> T::before(#[trigger] sorted@[j].key(), x.key()),
        i < sorted@.len() ==> !T::before(sorted@[i as int].key(), x.key()),
{
    let mut i: usize = 0;
    while i < sorted.len()
        invariant
            i <= sorted@.len(),
            forall|j: int| 0 <= j < i ==> T::before(#[trigger] sorted@[j].key(), x.key()),
        decreases sorted@.len() - i,
    {
        if !sorted[i].stands_before(x) {
            return i;
        }
        i += 1;
    }
    i
}

/// Sorts `items` by their keys. Values with the same key stay in the order
/// in which they came.
pub fn sort<T: Ordered>(items: Vec<T>) -> (sorted: Vec<T>)
    ensures
        in_order::<T>(keys(sorted@)),
        keys(sorted@).to_multiset() == keys(items@).to_multiset(),
{
    let ghost all = keys(items@);
    let mut rest = items;
    let mut sorted: Vec<T> = Vec::new();
    assert(keys(sorted@) =~= Seq::<T::Key>::empty());
    proof {
        broadcast use vstd::seq_lib::group_to_multiset_ensures;
        broadcast use vstd::multiset::group_multiset_axioms;
        assert(keys(sorted@).to_multiset().add(keys(rest@).to_multiset()) =~= all.to_multiset());
    }
    while rest.len() > 0
        invariant
            in_order::<T>(keys(sorted@)),
            keys(sorted@).to_multiset().add(keys(rest@).to_multiset()) == all.to_multiset(),
        decreases rest@.len(),
    {
        let ghost before_rest = keys(rest@);
        let ghost before_sorted = keys(sorted@);
        let x = rest.pop().unwrap();
        let i = insert_position(&sorted, &x);
        let ghost k = x.key();
        sorted.insert(i, x);
        proof {
            lemma_key_order_is_total::<T>();
            let r = key_order::<T>();
            let after = keys(sorted@);
            assert(after =~= before_sorted.insert(i as int, k));
            assert(before_rest =~= keys(rest@).push(k));
            broadcast use vstd::seq_lib::group_to_multiset_ensures;
            broadcast use vstd::multiset::group_multiset_axioms;
            vstd::seq_lib::to_multiset_insert(before_sorted, i as int, k);
            assert(after.to_multiset().add(keys(rest@).to_multiset()) =~= all.to_multiset());
            assert forall|p: int, q: int| 0 <= p < q < after.len() implies !T::before(
                #[trigger] after[q],
                #[trigger] after[p],
            ) by {
                let a = after[p];
                let b = after[q];
                if q == i {
                    assert(a == before_sorted[p]);
                    assert(r(a, k));
                    if r(k, a) {
                        assert(r(a, a));
                    }
                } else if p == i {
                    let first = before_sorted[i as int];
                    assert(b == before_sorted[q - 1]);
                    assert(!r(first, k));
                    if q - 1 > i {
                        assert(!T::before(before_sorted[q - 1], before_sorted[i as int]));
                    }
                    assert(!r(b, first));
                    if r(b, k) {
                        if first != b {
                            assert(r(first, b) || r(b, first));
                            assert(r(first, k));
                        }
                    }
                } else {
                    let earlier = if p < i { p } else { p - 1 };
                    let later = if q < i { q } else { q - 1 };
                    assert(a == before_sorted[earlier]);
                    assert(b == before_sorted[later]);
                }
            }
        }
    }
    proof {
        broadcast use vstd::seq_lib::group_to_multiset_ensures;
        broadcast use vstd::multiset::group_multiset_axioms;
        assert(keys(rest@) =~= Seq::<T::Key>::empty());
        assert(keys(sorted@).to_multiset() =~= all.to_multiset());
    }
    sorted
}

/// Sorts `items` by their keys and keeps one value of each key.
pub fn sort_distinct<T: Ordered>(items: Vec<T>) -> (sorted: Vec<T>)
    ensures
        strictly_in_order::<T>(keys(sorted@)),
        keys(sorted@).to_set() == keys(items@).to_set(),
{
    let ghost all = keys(items@);
    let mut rest = items;
    let mut sorted: Vec<T> = Vec::new();
    assert(keys(sorted@) =~= Seq::<T::Key>::empty());
    while rest.len() > 0
        invariant
            strictly_in_order::<T>(keys(sorted@)),
            forall|k: T::Key|
                (keys(sorted@).contains(k) || keys(rest@).contains(k)) <==> all.contains(k),
        decreases rest@.len(),
    {
        let ghost before_rest = keys(rest@);
        let ghost before_sorted = keys(sorted@);
        let x = rest.pop().unwrap();
        let ghost k = x.key();
        let i = insert_position(&sorted, &x);
        proof {
            lemma_key_order_is_total::<T>();
            assert(before_rest =~= keys(rest@).push(k));
            assert(before_rest[before_rest.len() - 1] == k);
            assert forall|a: T::Key| before_rest.contains(a) <==> (keys(rest@).contains(a) || a
                == k) by {
                if before_rest.contains(a) {
                    let p = choose|p: int| 0 <= p < before_rest.len() && before_rest[p] == a;
                    if p < keys(rest@).len() {
                        assert(keys(rest@)[p] == a);
                    }
                }
                if keys(rest@).contains(a) {
                    let p = choose|p: int| 0 <= p < keys(rest@).len() && keys(rest@)[p] == a;
                    assert(before_rest[p] == a);
                }
            }
        }
        let r = Ghost(key_order::<T>());
        if i < sorted.len() && !x.stands_before(&sorted[i]) {
            proof {
                let found = before_sorted[i as int];
                assert(!r@(found, k) && !r@(k, found));
                assert(found == k);
                assert(before_sorted.contains(k));
            }
        } else {
            sorted.insert(i, x);
            proof {
                let after = keys(sorted@);
                assert(after =~= before_sorted.insert(i as int, k));
                assert(after[i as int] == k);
                assert forall|a: T::Key| after.contains(a) <==> (before_sorted.contains(a) || a
                    == k) by {
                    if after.contains(a) {
                        let p = choose|p: int| 0 <= p < after.len() && after[p] == a;
                        if p < i {
                            assert(before_sorted[p] == a);
                        } else if p > i {
                            assert(before_sorted[p - 1] == a);
                        }
                    }
                    if before_sorted.contains(a) {
                        let p = choose|p: int| 0 <= p < before_sorted.len() && before_sorted[p]
                            == a;
                        if p < i {
                            assert(after[p] == a);
                        } else {
                            assert(after[p + 1] == a);
                        }
                    }
                }
                assert forall|p: int, q: int| 0 <= p < q < after.len() implies T::before(
                    #[trigger] after[p],
                    #[trigger] after[q],
                ) by {
                    let a = after[p];
                    let b = after[q];
                    if q == i {
                        assert(a == before_sorted[p]);
                        assert(r@(a, k));
                    } else if p == i {
                        let first = before_sorted[i as int];
                        assert(b == before_sorted[q - 1]);
                        assert(r@(k, first));
                        if q - 1 > i {
                            assert(T::before(before_sorted[i as int], before_sorted[q - 1]));
                            assert(r@(first, b));
                            assert(r@(k, b));
                        }
                    } else {
                        let earlier = if p < i { p } else { p - 1 };
                        let later = if q < i { q } else { q - 1 };
                        assert(a == before_sorted[earlier]);
                        assert(b == before_sorted[later]);
                    }
                }
            }
        }
    }
    proof {
        assert(keys(rest@) =~= Seq::<T::Key>::empty());
        assert(keys(sorted@).to_set() =~= all.to_set());
    }
    sorted
}

/// Sorting has one outcome: two sequences of keys in order that hold the
/// same keys, each as often as the other, are the same sequence.
pub proof fn lemma_in_order_is_unique<T: Ordered>(a: Seq<T::Key>, b: Seq<T::Key>)
    requires
        in_order::<T>(a),
        in_order::<T>(b),
        a.to_multiset() == b.to_multiset(),
    ensures
        a == b,
{
    lemma_key_order_is_total::<T>();
    let r = key_order::<T>();
    lemma_not_behind_is_total(r);
    let n = not_behind(r);
    assert(sorted_by(a, n)) by {
        assert forall|i: int, j: int| 0 <= i < j < a.len() implies #[trigger] n(a[i], a[j]) by {
            assert(!T::before(a[j], a[i]));
        }
    }
    assert(sorted_by(b, n)) by {
        assert forall|i: int, j: int| 0 <= i < j < b.len() implies #[trigger] n(b[i], b[j]) by {
            assert(!T::before(b[j], b[i]));
        }
    }
    vstd::seq_lib::lemma_sorted_unique(a, b, n);
}

/// Sorting without duplicates has one outcome: two sequences of keys in
/// strict order that hold the same keys are the same sequence.
pub proof fn lemma_strictly_in_order_is_unique<T: Ordered>(a: Seq<T::Key>, b: Seq<T::Key>)
    requires
        strictly_in_order::<T>(a),
        strictly_in_order::<T>(b),
        a.to_set() == b.to_set(),
    ensures
        a == b,
    decreases a.len(),
{
    lemma_key_order_is_total::<T>();
    let r = key_order::<T>();
    assert forall|x: T::Key| a.contains(x) <==> b.contains(x) by {
        assert(a.to_set().contains(x) == a.contains(x));
        assert(b.to_set().contains(x) == b.contains(x));
    }
    if a.len() == 0 {
        if b.len() > 0 {
            assert(b.contains(b[0]));
        }
        assert(a =~= b);
    } else {
        assert(a.contains(a[0]));
        let j = choose|j: int| 0 <= j < b.len() && b[j] == a[0];
        assert(b.contains(b[0]));
        let i = choose|i: int| 0 <= i < a.len() && a[i] == b[0];
        if j > 0 {
            assert(r(b[0], b[j]));
            if i > 0 {
                assert(r(a[0], a[i]));
                assert(r(a[0], a[0]));
            }
            assert(r(a[0], a[0]) == false);
        }
        assert(a[0] == b[0]);
        let (c, d) = (a.skip(1), b.skip(1));
        assert forall|x: T::Key| c.contains(x) <==> d.contains(x) by {
            assert(r(x, x) == false);
            if c.contains(x) {
                let p = choose|p: int| 0 <= p < c.len() && c[p] == x;
                assert(a[p + 1] == x);
                assert(r(a[0], a[p + 1]));
                assert(a.contains(x));
                let q = choose|q: int| 0 <= q < b.len() && b[q] == x;
                assert(d[q - 1] == x);
            }
            if d.contains(x) {
                let q = choose|q: int| 0 <= q < d.len() && d[q] == x;
                assert(b[q + 1] == x);
                assert(r(b[0], b[q + 1]));
                assert(b.contains(x));
                let p = choose|p: int| 0 <= p < a.len() && a[p] == x;
                assert(c[p - 1] == x);
            }
        }
        assert(c.to_set() =~= d.to_set());
        assert(strictly_in_order::<T>(c)) by {
            assert forall|p: int, q: int| 0 <= p < q < c.len() implies T::before(
                #[trigger] c[p],
                #[trigger] c[q],
            ) by {
                assert(T::before(a[p + 1], a[q + 1]));
            }
        }
        assert(strictly_in_order::<T>(d)) by {
            assert forall|p: int, q: int| 0 <= p < q < d.len() implies T::before(
                #[trigger] d[p],
                #[trigger] d[q],
            ) by {
                assert(T::before(b[p + 1], b[q + 1]));
            }
        }
        lemma_strictly_in_order_is_unique::<T>(c, d);
        assert(a =~= seq![a[0]] + c);
        assert(b =~= seq![b[0]] + d);
    }
}

} // verus!
