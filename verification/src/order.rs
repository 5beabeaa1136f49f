//! Byte-string order and the ordered collections built on it.
//!
//! Names and identities are ordered by their canonical bytes. [`OrderedSet`]
//! and [`OrderedMap`] keep their keys strictly ascending in that order, so a
//! walk over either one is deterministic.

use vstd::prelude::*;

verus! {

/// Strict lexicographic order of byte strings.
pub open spec fn bytes_lt(a: Seq<u8>, b: Seq<u8>) -> bool
    decreases a.len(),
{
    if b.len() == 0 {
        false
    } else if a.len() == 0 {
        true
    } else if a[0] != b[0] {
        a[0] < b[0]
    } else {
        bytes_lt(a.drop_first(), b.drop_first())
    }
}

/// No byte string precedes itself.
pub proof fn lemma_bytes_lt_irreflexive(a: Seq<u8>)
    ensures
        !bytes_lt(a, a),
    decreases a.len(),
{
    if a.len() > 0 {
        lemma_bytes_lt_irreflexive(a.drop_first());
    }
}

/// The order of byte strings is transitive.
pub proof fn lemma_bytes_lt_transitive(a: Seq<u8>, b: Seq<u8>, c: Seq<u8>)
    requires
        bytes_lt(a, b),
        bytes_lt(b, c),
    ensures
        bytes_lt(a, c),
    decreases a.len(),
{
    if a.len() > 0 && a[0] == b[0] && b[0] == c[0] {
        lemma_bytes_lt_transitive(a.drop_first(), b.drop_first(), c.drop_first());
    }
}

/// Two byte strings neither of which precedes the other are equal.
pub proof fn lemma_bytes_lt_total(a: Seq<u8>, b: Seq<u8>)
    ensures
        bytes_lt(a, b) || a == b || bytes_lt(b, a),
    decreases a.len(),
{
    if a.len() == 0 {
        if b.len() == 0 {
            assert(a =~= b);
        }
    } else if b.len() > 0 && a[0] == b[0] {
        lemma_bytes_lt_total(a.drop_first(), b.drop_first());
        if a.drop_first() == b.drop_first() {
            assert(a =~= seq![a[0]] + a.drop_first());
            assert(b =~= seq![b[0]] + b.drop_first());
        }
    }
}

proof fn lemma_bytes_lt_common_prefix(a: Seq<u8>, b: Seq<u8>, n: int)
    requires
        0 <= n <= a.len(),
        n <= b.len(),
        forall|i: int| 0 <= i < n ==> a[i] == b[i],
    ensures
        bytes_lt(a, b) == bytes_lt(a.skip(n), b.skip(n)),
    decreases n,
{
    if n == 0 {
        assert(a.skip(0) =~= a);
        assert(b.skip(0) =~= b);
    } else {
        let ra = a.drop_first();
        let rb = b.drop_first();
        assert(a[0] == b[0]);
        assert forall|i: int| 0 <= i < n - 1 implies ra[i] == rb[i] by {
            assert(ra[i] == a[i + 1]);
            assert(rb[i] == b[i + 1]);
        }
        lemma_bytes_lt_common_prefix(ra, rb, n - 1);
        assert(ra.skip(n - 1) =~= a.skip(n));
        assert(rb.skip(n - 1) =~= b.skip(n));
    }
}

/// Relative position of two byte strings.
#[derive(Clone, Copy, Debug, PartialEq, Eq, Structural)]
pub enum Position {
    /// The left string precedes the right one.
    Before,
    /// The strings are equal.
    Same,
    /// The left string follows the right one.
    After,
}

/// Compares two byte strings lexicographically.
pub fn position(a: &[u8], b: &[u8]) -> (r: Position)
    ensures
        r == Position::Before <==> bytes_lt(a@, b@),
        r == Position::Same <==> a@ == b@,
        r == Position::After <==> bytes_lt(b@, a@),
{
    proof {
        lemma_bytes_lt_total(a@, b@);
        lemma_bytes_lt_irreflexive(a@);
        if bytes_lt(a@, b@) && bytes_lt(b@, a@) {
            lemma_bytes_lt_transitive(a@, b@, a@);
        }
    }
    let mut i: usize = 0;
    while i < a.len() && i < b.len()
        invariant
            i <= a@.len(),
            i <= b@.len(),
            forall|k: int| 0 <= k < i ==> a@[k] == b@[k],
            bytes_lt(a@, b@) || a@ == b@ || bytes_lt(b@, a@),
            !(bytes_lt(a@, b@) && bytes_lt(b@, a@)),
            bytes_lt(a@, b@) || bytes_lt(b@, a@) ==> a@ != b@,
        decreases a@.len() - i,
    {
        if a[i] != b[i] {
            proof {
                lemma_bytes_lt_common_prefix(a@, b@, i as int);
                lemma_bytes_lt_common_prefix(b@, a@, i as int);
                assert(a@.skip(i as int)[0] == a@[i as int]);
                assert(b@.skip(i as int)[0] == b@[i as int]);
            }
            return if a[i] < b[i] {
                Position::Before
            } else {
                Position::After
            };
        }
        i = i + 1;
    }
    proof {
        lemma_bytes_lt_common_prefix(a@, b@, i as int);
        lemma_bytes_lt_common_prefix(b@, a@, i as int);
    }
    if i < b.len() {
        Position::Before
    } else if i < a.len() {
        Position::After
    } else {
        assert(a@ =~= b@);
        Position::Same
    }
}

/// Tells whether two byte strings are equal.
pub fn same_bytes(a: &[u8], b: &[u8]) -> (r: bool)
    ensures
        r == (a@ == b@),
{
    match position(a, b) {
        Position::Same => true,
        _ => false,
    }
}

/// A value that can be copied with its abstract value intact.
pub trait Replicate: View + Sized {
    /// Copies the value.
    fn replicate(&self) -> (r: Self)
        ensures
            r@ == self@,
    ;
}

/// A key ordered by its canonical bytes.
pub trait OrderKey: Replicate {
    /// Canonical bytes of an abstract key.
    spec fn order_bytes(key: Self::V) -> Seq<u8>;

    /// Canonical bytes identify a key.
    proof fn order_bytes_injective(a: Self::V, b: Self::V)
        requires
            Self::order_bytes(a) == Self::order_bytes(b),
        ensures
            a == b,
    ;

    /// Borrows the canonical bytes.
    fn key_bytes(&self) -> (r: &[u8])
        ensures
            r@ == Self::order_bytes(self@),
    ;
}

impl Replicate for String {
    fn replicate(&self) -> (r: Self) {
        self.clone()
    }
}

impl OrderKey for String {
    open spec fn order_bytes(key: Seq<char>) -> Seq<u8> {
        vstd::utf8::encode_utf8(key)
    }

    proof fn order_bytes_injective(a: Seq<char>, b: Seq<char>) {
        vstd::utf8::encode_utf8_decode_utf8(a);
        vstd::utf8::encode_utf8_decode_utf8(b);
    }

    fn key_bytes(&self) -> (r: &[u8]) {
        self.as_str().as_bytes()
    }
}

/// Keys strictly ascending by their canonical bytes.
pub open spec fn strictly_ordered<K: OrderKey>(keys: Seq<K::V>) -> bool {
    forall|i: int, j: int|
        #![trigger keys[i], keys[j]]
        0 <= i < j < keys.len() ==> bytes_lt(K::order_bytes(keys[i]), K::order_bytes(keys[j]))
}

/// The ascending enumeration of a finite key set.
pub open spec fn ascending<K: OrderKey>(keys: Set<K::V>) -> Seq<K::V> {
    choose|q: Seq<K::V>| strictly_ordered::<K>(q) && q.to_set() == keys
}

/// An ascending enumeration of a finite key set.
pub open spec fn enumerates<K: OrderKey>(keys: Seq<K::V>, set: Set<K::V>) -> bool {
    &&& strictly_ordered::<K>(keys)
    &&& keys.to_set() == set
    &&& keys.no_duplicates()
    &&& set.finite()
}

proof fn lemma_enumerates<K: OrderKey>(keys: Seq<K::V>)
    requires
        strictly_ordered::<K>(keys),
    ensures
        enumerates::<K>(keys, keys.to_set()),
        keys.len() == keys.to_set().len(),
{
    assert forall|i: int, j: int| 0 <= i < keys.len() && 0 <= j < keys.len() && i
        != j implies keys[i] != keys[j] by {
        lemma_bytes_lt_irreflexive(K::order_bytes(keys[i]));
        if i < j {
            assert(bytes_lt(K::order_bytes(keys[i]), K::order_bytes(keys[j])));
        } else {
            assert(bytes_lt(K::order_bytes(keys[j]), K::order_bytes(keys[i])));
        }
    }
    vstd::seq_lib::seq_to_set_is_finite(keys);
    keys.unique_seq_to_set();
}

/// A key set has one ascending enumeration.
pub proof fn lemma_ascending_unique<K: OrderKey>(a: Seq<K::V>, b: Seq<K::V>)
    requires
        strictly_ordered::<K>(a),
        strictly_ordered::<K>(b),
        a.to_set() == b.to_set(),
    ensures
        a == b,
    decreases a.len(),
{
    assert forall|x: K::V| a.contains(x) <==> b.contains(x) by {
        assert(a.to_set().contains(x) <==> a.contains(x));
        assert(b.to_set().contains(x) <==> b.contains(x));
    }
    if a.len() == 0 {
        if b.len() > 0 {
            assert(b.contains(b[0]));
            assert(a.contains(b[0]));
        }
        assert(a =~= b);
    } else {
        assert(a.contains(a[0]));
        let j = b.index_of(a[0]);
        assert(b.contains(a[0]));
        assert(b[j] == a[0]);
        assert(b.contains(b[0]));
        let i = a.index_of(b[0]);
        assert(a.contains(b[0]));
        assert(a[i] == b[0]);
        if j > 0 {
            if i > 0 {
                lemma_bytes_lt_transitive(
                    K::order_bytes(a[0]),
                    K::order_bytes(b[0]),
                    K::order_bytes(a[0]),
                );
            }
            lemma_bytes_lt_irreflexive(K::order_bytes(a[0]));
        }
        let ra = a.drop_first();
        let rb = b.drop_first();
        assert forall|x: K::V| ra.contains(x) implies rb.contains(x) by {
            let k = ra.index_of(x);
            assert(a[k + 1] == x);
            assert(a.contains(x));
            let m = b.index_of(x);
            assert(b[m] == x);
            lemma_bytes_lt_irreflexive(K::order_bytes(a[0]));
            assert(m != 0);
            assert(rb[m - 1] == x);
        }
        assert forall|x: K::V| rb.contains(x) implies ra.contains(x) by {
            let k = rb.index_of(x);
            assert(b[k + 1] == x);
            assert(b.contains(x));
            let m = a.index_of(x);
            assert(a[m] == x);
            lemma_bytes_lt_irreflexive(K::order_bytes(a[0]));
            assert(m != 0);
            assert(ra[m - 1] == x);
        }
        assert(ra.to_set() =~= rb.to_set());
        lemma_ascending_unique::<K>(ra, rb);
        assert(a =~= seq![a[0]] + ra);
        assert(b =~= seq![b[0]] + rb);
    }
}

/// Abstract values of a sequence of concrete ones.
pub open spec fn views<T: View>(items: Seq<T>) -> Seq<T::V> {
    Seq::new(items.len(), |i: int| items[i]@)
}

/// Finds the position of `key`, or where it would be inserted.
fn search<K: OrderKey>(keys: &Vec<K>, key: &K) -> (r: (bool, usize))
    requires
        strictly_ordered::<K>(views(keys@)),
    ensures
        r.1 <= keys@.len(),
        r.0 ==> r.1 < keys@.len() && keys@[r.1 as int]@ == key@,
        !r.0 ==> forall|i: int| 0 <= i < keys@.len() ==> keys@[i]@ != key@,
        forall|i: int|
            0 <= i < r.1 ==> bytes_lt(
                K::order_bytes(#[trigger] keys@[i]@),
                K::order_bytes(key@),
            ),
        !r.0 ==> forall|i: int|
            r.1 <= i < keys@.len() ==> bytes_lt(
                K::order_bytes(key@),
                K::order_bytes(#[trigger] keys@[i]@),
            ),
{
    let target = key.key_bytes();
    let ghost q = views(keys@);
    let mut low: usize = 0;
    let mut high: usize = keys.len();
    while low < high
        invariant
            low <= high <= keys@.len(),
            q == views(keys@),
            strictly_ordered::<K>(q),
            target@ == K::order_bytes(key@),
            forall|i: int| 0 <= i < low ==> bytes_lt(K::order_bytes(#[trigger] keys@[i]@), target@),
            forall|i: int|
                high <= i < keys@.len() ==> bytes_lt(
                    target@,
                    K::order_bytes(#[trigger] keys@[i]@),
                ),
        decreases high - low,
    {
        let middle: usize = low + (high - low) / 2;
        let ghost m = middle as int;
        match position(keys[middle].key_bytes(), target) {
            Position::Same => {
                proof {
                    K::order_bytes_injective(keys@[m]@, key@);
                    assert forall|i: int| 0 <= i < m implies bytes_lt(
                        K::order_bytes(#[trigger] keys@[i]@),
                        target@,
                    ) by {
                        assert(q[i] == keys@[i]@ && q[m] == keys@[m]@);
                    }
                }
                return (true, middle);
            },
            Position::Before => {
                proof {
                    assert forall|i: int| 0 <= i < m + 1 implies bytes_lt(
                        K::order_bytes(#[trigger] keys@[i]@),
                        target@,
                    ) by {
                        if i < m {
                            assert(q[i] == keys@[i]@ && q[m] == keys@[m]@);
                            lemma_bytes_lt_transitive(
                                K::order_bytes(keys@[i]@),
                                K::order_bytes(keys@[m]@),
                                target@,
                            );
                        }
                    }
                }
                low = middle + 1;
            },
            Position::After => {
                proof {
                    assert forall|i: int| m <= i < keys@.len() implies bytes_lt(
                        target@,
                        K::order_bytes(#[trigger] keys@[i]@),
                    ) by {
                        if i > m {
                            assert(q[i] == keys@[i]@ && q[m] == keys@[m]@);
                            lemma_bytes_lt_transitive(
                                target@,
                                K::order_bytes(keys@[m]@),
                                K::order_bytes(keys@[i]@),
                            );
                        }
                    }
                }
                high = middle;
            },
        }
    }
    proof {
        assert forall|i: int| 0 <= i < keys@.len() implies keys@[i]@ != key@ by {
            lemma_bytes_lt_irreflexive(target@);
            if i < low {
                assert(bytes_lt(K::order_bytes(keys@[i]@), target@));
            } else {
                assert(bytes_lt(target@, K::order_bytes(keys@[i]@)));
            }
        }
    }
    (false, low)
}

proof fn lemma_insert_ordered<K: OrderKey>(q: Seq<K::V>, at: int, key: K::V)
    requires
        strictly_ordered::<K>(q),
        0 <= at <= q.len(),
        forall|i: int| 0 <= i < at ==> bytes_lt(K::order_bytes(#[trigger] q[i]), K::order_bytes(key)),
        forall|i: int|
            at <= i < q.len() ==> bytes_lt(K::order_bytes(key), K::order_bytes(#[trigger] q[i])),
    ensures
        strictly_ordered::<K>(q.insert(at, key)),
        q.insert(at, key).to_set() == q.to_set().insert(key),
{
    let n = q.insert(at, key);
    assert forall|i: int, j: int| #![trigger n[i], n[j]] 0 <= i < j < n.len() implies bytes_lt(
        K::order_bytes(n[i]),
        K::order_bytes(n[j]),
    ) by {
        let oi = if i < at { i } else { i - 1 };
        let oj = if j < at { j } else { j - 1 };
        if i != at {
            assert(n[i] == q[oi]);
        }
        if j != at {
            assert(n[j] == q[oj]);
        }
    }
    assert forall|x: K::V| n.to_set().contains(x) <==> q.to_set().insert(key).contains(x) by {
        if n.contains(x) {
            let i = n.index_of(x);
            if i < at {
                assert(q[i] == x);
            } else if i > at {
                assert(q[i - 1] == x);
            }
        }
        if q.contains(x) {
            let i = q.index_of(x);
            if i < at {
                assert(n[i] == x);
            } else {
                assert(n[i + 1] == x);
            }
        }
        assert(n[at] == key);
    }
    assert(n.to_set() =~= q.to_set().insert(key));
}

proof fn lemma_remove_ordered<K: OrderKey>(q: Seq<K::V>, at: int)
    requires
        strictly_ordered::<K>(q),
        0 <= at < q.len(),
    ensures
        strictly_ordered::<K>(q.remove(at)),
        q.remove(at).to_set() == q.to_set().remove(q[at]),
{
    let n = q.remove(at);
    assert forall|i: int, j: int| #![trigger n[i], n[j]] 0 <= i < j < n.len() implies bytes_lt(
        K::order_bytes(n[i]),
        K::order_bytes(n[j]),
    ) by {
        let oi = if i < at { i } else { i + 1 };
        let oj = if j < at { j } else { j + 1 };
        assert(n[i] == q[oi] && n[j] == q[oj]);
    }
    assert forall|x: K::V| n.to_set().contains(x) <==> q.to_set().remove(q[at]).contains(x) by {
        if n.contains(x) {
            let i = n.index_of(x);
            let o = if i < at { i } else { i + 1 };
            assert(q[o] == x);
            lemma_bytes_lt_irreflexive(K::order_bytes(x));
            assert(x != q[at]);
        }
        if q.contains(x) && x != q[at] {
            let i = q.index_of(x);
            if i < at {
                assert(n[i] == x);
            } else {
                assert(n[i - 1] == x);
            }
        }
    }
    assert(n.to_set() =~= q.to_set().remove(q[at]));
}

/// A set walked in ascending key order.
#[derive(Debug, PartialEq, Eq)]
pub struct OrderedSet<K: OrderKey> {
    items: Vec<K>,
}

impl<K: OrderKey> View for OrderedSet<K> {
    type V = Set<K::V>;

    closed spec fn view(&self) -> Set<K::V> {
        views(self.items@).to_set()
    }
}

impl<K: OrderKey> OrderedSet<K> {
    #[verifier::type_invariant]
    spec fn well_formed(self) -> bool {
        strictly_ordered::<K>(views(self.items@))
    }

    proof fn lemma_ascending(items: Seq<K>)
        requires
            strictly_ordered::<K>(views(items)),
        ensures
            ascending::<K>(views(items).to_set()) == views(items),
    {
        let q = views(items);
        assert(strictly_ordered::<K>(q) && q.to_set() == q.to_set());
        lemma_ascending_unique::<K>(ascending::<K>(q.to_set()), q);
    }

    /// Creates an empty set.
    pub fn new() -> (r: Self)
        ensures
            r@ == Set::<K::V>::empty(),
    {
        let r = OrderedSet { items: Vec::new() };
        assert(r@ =~= Set::<K::V>::empty());
        r
    }

    /// Collects the members of a list.
    pub fn from_vec(items: Vec<K>) -> (r: Self)
        ensures
            r@ == views(items@).to_set(),
    {
        let mut r = OrderedSet::new();
        let mut i: usize = 0;
        assert(views(items@).take(0).to_set() =~= Set::<K::V>::empty());
        while i < items.len()
            invariant
                i <= items@.len(),
                r@ == views(items@).take(i as int).to_set(),
            decreases items@.len() - i,
        {
            r.insert(items[i].replicate());
            proof {
                let q = views(items@);
                assert(q.take(i + 1) =~= q.take(i as int).push(q[i as int]));
                lemma_to_set_push(q.take(i as int), q[i as int]);
            }
            i = i + 1;
        }
        assert(views(items@).take(i as int) =~= views(items@));
        r
    }

    /// Number of members.
    pub fn len(&self) -> (r: usize)
        ensures
            r == ascending::<K>(self@).len(),
            r == self@.len(),
            enumerates::<K>(ascending::<K>(self@), self@),
    {
        proof {
            use_type_invariant(self);
            Self::lemma_ascending(self.items@);
            lemma_enumerates::<K>(views(self.items@));
        }
        self.items.len()
    }

    /// Borrows one member by its rank.
    pub fn at(&self, index: usize) -> (r: &K)
        requires
            index < ascending::<K>(self@).len(),
        ensures
            r@ == ascending::<K>(self@)[index as int],
            self@.contains(r@),
    {
        proof {
            use_type_invariant(self);
            Self::lemma_ascending(self.items@);
            assert(views(self.items@).contains(views(self.items@)[index as int]));
        }
        &self.items[index]
    }

    /// Tells whether the set has no member.
    pub fn is_empty(&self) -> (r: bool)
        ensures
            r == (self@ == Set::<K::V>::empty()),
    {
        proof {
            let q = views(self.items@);
            if q.len() == 0 {
                assert(q.to_set() =~= Set::<K::V>::empty());
            } else {
                assert(q.contains(q[0]));
                assert(q.to_set().contains(q[0]));
            }
        }
        self.items.len() == 0
    }

    /// Tells whether `key` is a member.
    pub fn contains(&self, key: &K) -> (r: bool)
        ensures
            r == self@.contains(key@),
    {
        proof {
            use_type_invariant(self);
        }
        let found = search(&self.items, key);
        proof {
            let q = views(self.items@);
            if found.0 {
                assert(q[found.1 as int] == key@);
                assert(q.contains(key@));
            } else if q.contains(key@) {
                let i = q.index_of(key@);
                assert(self.items@[i]@ == key@);
            }
        }
        found.0
    }

    /// Adds a member and tells whether it was absent.
    pub fn insert(&mut self, key: K) -> (r: bool)
        ensures
            final(self)@ == old(self)@.insert(key@),
            r == !old(self)@.contains(key@),
    {
        proof {
            use_type_invariant(&*self);
        }
        let mut items: Vec<K> = Vec::new();
        core::mem::swap(&mut items, &mut self.items);
        let found = search(&items, &key);
        let ghost q = views(items@);
        if found.0 {
            proof {
                assert(q[found.1 as int] == key@);
                assert(q.contains(key@));
                assert(q.to_set().insert(key@) =~= q.to_set());
            }
            self.items = items;
            false
        } else {
            proof {
                if q.contains(key@) {
                    let i = q.index_of(key@);
                    assert(items@[i]@ == key@);
                }
                assert forall|i: int| 0 <= i < found.1 implies bytes_lt(
                    K::order_bytes(#[trigger] q[i]),
                    K::order_bytes(key@),
                ) by {
                    assert(q[i] == items@[i]@);
                }
                assert forall|i: int| found.1 <= i < q.len() implies bytes_lt(
                    K::order_bytes(key@),
                    K::order_bytes(#[trigger] q[i]),
                ) by {
                    assert(q[i] == items@[i]@);
                }
                lemma_insert_ordered::<K>(q, found.1 as int, key@);
            }
            let ghost before = items@;
            let ghost added = key;
            items.insert(found.1, key);
            assert(views(items@) =~= q.insert(found.1 as int, added@));
            self.items = items;
            true
        }
    }

    /// Removes a member and tells whether it was present.
    pub fn remove(&mut self, key: &K) -> (r: bool)
        ensures
            final(self)@ == old(self)@.remove(key@),
            r == old(self)@.contains(key@),
    {
        proof {
            use_type_invariant(&*self);
        }
        let mut items: Vec<K> = Vec::new();
        core::mem::swap(&mut items, &mut self.items);
        let found = search(&items, key);
        let ghost q = views(items@);
        if found.0 {
            proof {
                assert(q[found.1 as int] == key@);
                assert(q.contains(key@));
                lemma_remove_ordered::<K>(q, found.1 as int);
            }
            let removed = items.remove(found.1);
            assert(views(items@) =~= q.remove(found.1 as int));
            self.items = items;
            true
        } else {
            proof {
                if q.contains(key@) {
                    let i = q.index_of(key@);
                    assert(items@[i]@ == key@);
                }
                assert(q.to_set().remove(key@) =~= q.to_set());
            }
            self.items = items;
            false
        }
    }

    /// Members of either set.
    pub fn union(&self, other: &Self) -> (r: Self)
        ensures
            r@ == self@.union(other@),
    {
        let mut r = self.replicate();
        let mut i: usize = 0;
        let ghost q = views(other.items@);
        assert(q.take(0).to_set() =~= Set::<K::V>::empty());
        assert(self@.union(q.take(0).to_set()) =~= self@);
        while i < other.items.len()
            invariant
                i <= other.items@.len(),
                q == views(other.items@),
                r@ == self@.union(q.take(i as int).to_set()),
            decreases other.items@.len() - i,
        {
            r.insert(other.items[i].replicate());
            proof {
                assert(q.take(i + 1) =~= q.take(i as int).push(q[i as int]));
                lemma_to_set_push(q.take(i as int), q[i as int]);
                assert(self@.union(q.take(i as int).to_set()).insert(q[i as int]) =~= self@.union(
                    q.take(i + 1).to_set(),
                ));
            }
            i = i + 1;
        }
        assert(q.take(i as int) =~= q);
        r
    }

    /// Members in ascending order.
    pub fn to_vec(&self) -> (r: Vec<K>)
        ensures
            views(r@) == ascending::<K>(self@),
    {
        proof {
            use_type_invariant(self);
            Self::lemma_ascending(self.items@);
        }
        replicate_all(&self.items)
    }

    /// Tells whether two sets have the same members.
    pub fn same_as(&self, other: &Self) -> (r: bool)
        ensures
            r == (self@ == other@),
    {
        proof {
            use_type_invariant(self);
            use_type_invariant(other);
            Self::lemma_ascending(self.items@);
            Self::lemma_ascending(other.items@);
        }
        let ghost a = views(self.items@);
        let ghost b = views(other.items@);
        if self.items.len() != other.items.len() {
            return false;
        }
        let mut i: usize = 0;
        while i < self.items.len()
            invariant
                i <= self.items@.len(),
                self.items@.len() == other.items@.len(),
                a == views(self.items@),
                b == views(other.items@),
                ascending::<K>(self@) == a,
                ascending::<K>(other@) == b,
                forall|k: int| 0 <= k < i ==> a[k] == b[k],
            decreases self.items@.len() - i,
        {
            if !same_bytes(self.items[i].key_bytes(), other.items[i].key_bytes()) {
                assert(a[i as int] != b[i as int]);
                return false;
            }
            proof {
                K::order_bytes_injective(self.items@[i as int]@, other.items@[i as int]@);
            }
            i = i + 1;
        }
        assert(a =~= b);
        true
    }
}

/// Members of a sequence after one more element.
pub proof fn lemma_to_set_push<A>(q: Seq<A>, x: A)
    ensures
        q.push(x).to_set() == q.to_set().insert(x),
{
    assert forall|y: A| q.push(x).to_set().contains(y) <==> q.to_set().insert(x).contains(y) by {
        if q.push(x).contains(y) {
            let i = q.push(x).index_of(y);
            if i < q.len() {
                assert(q[i] == y);
            }
        }
        if q.contains(y) {
            let i = q.index_of(y);
            assert(q.push(x)[i] == y);
        }
        assert(q.push(x)[q.len() as int] == x);
    }
    assert(q.push(x).to_set() =~= q.to_set().insert(x));
}

/// Copies every element of a list.
pub fn replicate_all<T: Replicate>(items: &Vec<T>) -> (r: Vec<T>)
    ensures
        views(r@) == views(items@),
{
    let mut r: Vec<T> = Vec::new();
    let mut i: usize = 0;
    while i < items.len()
        invariant
            i <= items@.len(),
            views(r@) == views(items@).take(i as int),
        decreases items@.len() - i,
    {
        let ghost before = r@;
        r.push(items[i].replicate());
        assert(views(r@) =~= views(before).push(items@[i as int]@));
        assert(views(items@).take(i + 1) =~= views(items@).take(i as int).push(
            items@[i as int]@,
        ));
        i = i + 1;
    }
    assert(views(items@).take(i as int) =~= views(items@));
    r
}

impl<K: OrderKey> Replicate for OrderedSet<K> {
    fn replicate(&self) -> (r: Self) {
        proof {
            use_type_invariant(self);
        }
        OrderedSet { items: replicate_all(&self.items) }
    }
}

impl<K: OrderKey> Clone for OrderedSet<K> {
    fn clone(&self) -> (r: Self)
        ensures
            r@ == self@,
    {
        self.replicate()
    }
}

/// A map walked in ascending key order.
#[derive(Debug, PartialEq, Eq)]
pub struct OrderedMap<K: OrderKey, T: View> {
    keys: Vec<K>,
    values: Vec<T>,
}

/// The map that pairs each key with the value at the same index.
pub open spec fn paired<A, B>(keys: Seq<A>, values: Seq<B>) -> Map<A, B> {
    Map::new(|k: A| keys.contains(k), |k: A| values[keys.index_of(k)])
}

impl<K: OrderKey, T: View> View for OrderedMap<K, T> {
    type V = Map<K::V, T::V>;

    closed spec fn view(&self) -> Map<K::V, T::V> {
        paired(views(self.keys@), views(self.values@))
    }
}

proof fn lemma_ordered_index<K: OrderKey>(q: Seq<K::V>, i: int)
    requires
        strictly_ordered::<K>(q),
        0 <= i < q.len(),
    ensures
        q.contains(q[i]),
        q.index_of(q[i]) == i,
{
    assert(q.contains(q[i]));
    let j = q.index_of(q[i]);
    lemma_bytes_lt_irreflexive(K::order_bytes(q[i]));
    if j < i {
        assert(bytes_lt(K::order_bytes(q[j]), K::order_bytes(q[i])));
    } else if i < j {
        assert(bytes_lt(K::order_bytes(q[i]), K::order_bytes(q[j])));
    }
}

impl<K: OrderKey, T: View> OrderedMap<K, T> {
    #[verifier::type_invariant]
    spec fn well_formed(self) -> bool {
        &&& strictly_ordered::<K>(views(self.keys@))
        &&& self.keys@.len() == self.values@.len()
    }

    proof fn lemma_dom(keys: Seq<K>, values: Seq<T>)
        requires
            strictly_ordered::<K>(views(keys)),
        ensures
            paired(views(keys), views(values)).dom() == views(keys).to_set(),
            ascending::<K>(paired(views(keys), views(values)).dom()) == views(keys),
    {
        assert(paired(views(keys), views(values)).dom() =~= views(keys).to_set());
        OrderedSet::<K>::lemma_ascending(keys);
    }

    /// Creates an empty map.
    pub fn new() -> (r: Self)
        ensures
            r@ == Map::<K::V, T::V>::empty(),
    {
        let r = OrderedMap { keys: Vec::new(), values: Vec::new() };
        assert(r@ =~= Map::<K::V, T::V>::empty());
        r
    }

    /// Number of entries.
    pub fn len(&self) -> (r: usize)
        ensures
            r == ascending::<K>(self@.dom()).len(),
            r == self@.dom().len(),
            enumerates::<K>(ascending::<K>(self@.dom()), self@.dom()),
    {
        proof {
            use_type_invariant(self);
            Self::lemma_dom(self.keys@, self.values@);
            lemma_enumerates::<K>(views(self.keys@));
        }
        self.keys.len()
    }

    /// Borrows one key by its rank.
    pub fn key_at(&self, index: usize) -> (r: &K)
        requires
            index < ascending::<K>(self@.dom()).len(),
        ensures
            r@ == ascending::<K>(self@.dom())[index as int],
            self@.dom().contains(r@),
    {
        proof {
            use_type_invariant(self);
            Self::lemma_dom(self.keys@, self.values@);
            assert(views(self.keys@).contains(views(self.keys@)[index as int]));
        }
        &self.keys[index]
    }

    /// Borrows one value by its key's rank.
    pub fn value_at(&self, index: usize) -> (r: &T)
        requires
            index < ascending::<K>(self@.dom()).len(),
        ensures
            r@ == self@[ascending::<K>(self@.dom())[index as int]],
            self@.dom().contains(ascending::<K>(self@.dom())[index as int]),
    {
        proof {
            use_type_invariant(self);
            Self::lemma_dom(self.keys@, self.values@);
            lemma_ordered_index::<K>(views(self.keys@), index as int);
        }
        &self.values[index]
    }

    /// Tells whether the map has no entry.
    pub fn is_empty(&self) -> (r: bool)
        ensures
            r == (self@ == Map::<K::V, T::V>::empty()),
    {
        proof {
            let q = views(self.keys@);
            if q.len() == 0 {
                assert(self@ =~= Map::<K::V, T::V>::empty());
            } else {
                assert(q.contains(q[0]));
                assert(self@.dom().contains(q[0]));
            }
        }
        self.keys.len() == 0
    }

    /// Borrows the value of `key`.
    pub fn get(&self, key: &K) -> (r: Option<&T>)
        ensures
            r is Some == self@.dom().contains(key@),
            r matches Some(value) ==> value@ == self@[key@],
    {
        proof {
            use_type_invariant(self);
        }
        let found = search(&self.keys, key);
        let ghost q = views(self.keys@);
        if found.0 {
            proof {
                assert(q[found.1 as int] == key@);
                lemma_ordered_index::<K>(q, found.1 as int);
            }
            Some(&self.values[found.1])
        } else {
            proof {
                if q.contains(key@) {
                    let i = q.index_of(key@);
                    assert(self.keys@[i]@ == key@);
                }
            }
            None
        }
    }

    /// Tells whether `key` has a value.
    pub fn contains_key(&self, key: &K) -> (r: bool)
        ensures
            r == self@.dom().contains(key@),
    {
        self.get(key).is_some()
    }

    /// Sets the value of `key`.
    pub fn insert(&mut self, key: K, value: T)
        ensures
            final(self)@ == old(self)@.insert(key@, value@),
    {
        proof {
            use_type_invariant(&*self);
        }
        let mut taken: OrderedMap<K, T> = OrderedMap { keys: Vec::new(), values: Vec::new() };
        core::mem::swap(&mut taken, self);
        let OrderedMap { keys: mut keys, values: mut values } = taken;
        let found = search(&keys, &key);
        let ghost q = views(keys@);
        let ghost v = views(values@);
        let ghost model = old(self)@.insert(key@, value@);
        if found.0 {
            let ghost at = found.1 as int;
            proof {
                assert(q[at] == key@);
                lemma_ordered_index::<K>(q, at);
            }
            let ghost added = value;
            values.set(found.1, value);
            proof {
                assert(views(values@) =~= v.update(at, added@));
                assert forall|k: K::V| q.contains(k) implies #[trigger] v.update(
                    at,
                    added@,
                )[q.index_of(k)] == model[k] by {
                    if k != key@ {
                        assert(q.index_of(k) != at);
                    }
                }
                assert(paired(q, views(values@)) =~= model);
            }
            *self = OrderedMap { keys, values };
        } else {
            let ghost at = found.1 as int;
            let ghost added_key = key@;
            let ghost added = value@;
            proof {
                assert forall|i: int| 0 <= i < at implies bytes_lt(
                    K::order_bytes(#[trigger] q[i]),
                    K::order_bytes(key@),
                ) by {
                    assert(q[i] == keys@[i]@);
                }
                assert forall|i: int| at <= i < q.len() implies bytes_lt(
                    K::order_bytes(key@),
                    K::order_bytes(#[trigger] q[i]),
                ) by {
                    assert(q[i] == keys@[i]@);
                }
                lemma_insert_ordered::<K>(q, at, key@);
            }
            keys.insert(found.1, key);
            values.insert(found.1, value);
            proof {
                let nq = q.insert(at, added_key);
                let nv = v.insert(at, added);
                assert(views(keys@) =~= nq);
                assert(views(values@) =~= nv);
                assert(nq.to_set() == q.to_set().insert(added_key));
                assert forall|k: K::V| nq.contains(k) <==> (q.contains(k) || k == added_key) by {
                    assert(nq.to_set().contains(k) <==> nq.contains(k));
                    assert(q.to_set().contains(k) <==> q.contains(k));
                }
                assert forall|k: K::V| #[trigger] nq.contains(k) implies nv[nq.index_of(k)]
                    == model[k] by {
                    if k == added_key {
                        assert(nq[at] == k);
                        lemma_ordered_index::<K>(nq, at);
                    } else {
                        let i = q.index_of(k);
                        assert(q[i] == k);
                        let n = if i < at { i } else { i + 1 };
                        assert(nq[n] == k);
                        lemma_ordered_index::<K>(nq, n);
                        assert(nv[n] == v[i]);
                    }
                }
                assert(paired(nq, nv) =~= model);
            }
            *self = OrderedMap { keys, values };
        }
    }

    /// Removes the entry of `key`.
    pub fn remove(&mut self, key: &K)
        ensures
            final(self)@ == old(self)@.remove(key@),
    {
        proof {
            use_type_invariant(&*self);
        }
        let mut taken: OrderedMap<K, T> = OrderedMap { keys: Vec::new(), values: Vec::new() };
        core::mem::swap(&mut taken, self);
        let OrderedMap { keys: mut keys, values: mut values } = taken;
        let found = search(&keys, key);
        let ghost q = views(keys@);
        let ghost v = views(values@);
        let ghost model = old(self)@.remove(key@);
        if found.0 {
            let ghost at = found.1 as int;
            proof {
                assert(q[at] == key@);
                lemma_remove_ordered::<K>(q, at);
            }
            let removed_key = keys.remove(found.1);
            let removed_value = values.remove(found.1);
            proof {
                let nq = q.remove(at);
                let nv = v.remove(at);
                assert(views(keys@) =~= nq);
                assert(views(values@) =~= nv);
                assert forall|k: K::V| nq.contains(k) <==> (q.contains(k) && k != key@) by {
                    assert(nq.to_set().contains(k) <==> nq.contains(k));
                    assert(q.to_set().contains(k) <==> q.contains(k));
                }
                assert forall|k: K::V| #[trigger] nq.contains(k) implies nv[nq.index_of(k)]
                    == model[k] by {
                    let i = q.index_of(k);
                    assert(q[i] == k);
                    let n = if i < at { i } else { i - 1 };
                    assert(nq[n] == k);
                    lemma_ordered_index::<K>(nq, n);
                    assert(nv[n] == v[i]);
                }
                assert(paired(nq, nv) =~= model);
            }
        } else {
            proof {
                if q.contains(key@) {
                    let i = q.index_of(key@);
                    assert(keys@[i]@ == key@);
                }
                assert(paired(q, v) =~= model);
            }
        }
        *self = OrderedMap { keys, values };
    }

    /// Keys in ascending order.
    pub fn keys(&self) -> (r: Vec<K>)
        ensures
            views(r@) == ascending::<K>(self@.dom()),
    {
        proof {
            use_type_invariant(self);
            Self::lemma_dom(self.keys@, self.values@);
        }
        replicate_all(&self.keys)
    }
}

impl<K: OrderKey, T: Replicate> Replicate for OrderedMap<K, T> {
    fn replicate(&self) -> (r: Self) {
        proof {
            use_type_invariant(self);
        }
        let keys = replicate_all(&self.keys);
        let values = replicate_all(&self.values);
        assert(keys@.len() == views(keys@).len());
        assert(values@.len() == views(values@).len());
        OrderedMap { keys, values }
    }
}

impl<K: OrderKey, T: Replicate> Clone for OrderedMap<K, T> {
    fn clone(&self) -> (r: Self)
        ensures
            r@ == self@,
    {
        self.replicate()
    }
}

/// Byte strings are ordered by the first byte in which they differ, and one that another
/// goes on from comes before it.
pub proof fn the_first_difference_orders(a: Seq<u8>, b: Seq<u8>, n: int)
    requires
        0 <= n <= a.len(),
        n <= b.len(),
        forall|i: int| 0 <= i < n ==> a[i] == b[i],
    ensures
        n < a.len() && n < b.len() && a[n] < b[n] ==> bytes_lt(a, b) && !bytes_lt(b, a),
        n == a.len() && n < b.len() ==> bytes_lt(a, b) && !bytes_lt(b, a),
        n == a.len() && n == b.len() ==> !bytes_lt(a, b) && !bytes_lt(b, a),
{
    lemma_bytes_lt_common_prefix(a, b, n);
    lemma_bytes_lt_common_prefix(b, a, n);
    if n < a.len() {
        assert(a.skip(n)[0] == a[n]);
    }
    if n < b.len() {
        assert(b.skip(n)[0] == b[n]);
    }
}

} // verus!
