//! The key directory: every key that the engine holds, in order.
//!
//! The engine has no way to enumerate its keys, so the state machine keeps them
//! (keys only, values stay in the engine) to build a transferable snapshot.

use vstd::prelude::*;

verus! {

/// Byte strings in lexicographic order.
pub open spec fn precedes(a: Seq<u8>, b: Seq<u8>) -> bool
    decreases a.len(),
{
    if b.len() == 0 {
        false
    } else if a.len() == 0 {
        true
    } else if a[0] != b[0] {
        a[0] < b[0]
    } else {
        precedes(a.skip(1), b.skip(1))
    }
}

/// The keys are in order, none twice.
pub open spec fn ascending(keys: Seq<Seq<u8>>) -> bool {
    forall|i: int, j: int|
        0 <= i < j < keys.len() ==> precedes(#[trigger] keys[i], #[trigger] keys[j])
}

/// The byte strings that a list of them stands for.
pub open spec fn contents(keys: Seq<Vec<u8>>) -> Seq<Seq<u8>> {
    Seq::new(keys.len(), |i: int| keys[i]@)
}

/// No byte string precedes itself.
pub proof fn lemma_irreflexive(a: Seq<u8>)
    ensures
        !precedes(a, a),
    decreases a.len(),
{
    if a.len() > 0 {
        lemma_irreflexive(a.skip(1));
    }
}

/// What precedes what precedes `c` precedes `c`.
pub proof fn lemma_transitive(a: Seq<u8>, b: Seq<u8>, c: Seq<u8>)
    requires
        precedes(a, b),
        precedes(b, c),
    ensures
        precedes(a, c),
    decreases a.len(),
{
    if a.len() > 0 && b.len() > 0 && c.len() > 0 && a[0] == b[0] && b[0] == c[0] {
        lemma_transitive(a.skip(1), b.skip(1), c.skip(1));
    }
}

/// Of two byte strings that differ, one precedes the other.
pub proof fn lemma_total(a: Seq<u8>, b: Seq<u8>)
    ensures
        a == b || precedes(a, b) || precedes(b, a),
    decreases a.len(),
{
    if a.len() > 0 && b.len() > 0 && a[0] == b[0] {
        lemma_total(a.skip(1), b.skip(1));
        if a.skip(1) == b.skip(1) {
            assert forall|i: int| 0 <= i < a.len() implies a[i] == b[i] by {
                if i > 0 {
                    assert(a.skip(1)[i - 1] == b.skip(1)[i - 1]);
                }
            }
            assert(a.len() == b.len()) by {
                assert(a.skip(1).len() == b.skip(1).len());
            }
            assert(a =~= b);
        }
    } else if a.len() == 0 && b.len() == 0 {
        assert(a =~= b);
    }
}

/// Keys have one order.
pub proof fn lemma_ascending_unique(a: Seq<Seq<u8>>, b: Seq<Seq<u8>>)
    requires
        ascending(a),
        ascending(b),
        a.to_set() == b.to_set(),
    ensures
        a == b,
    decreases a.len(),
{
    if a.len() == 0 {
        if b.len() > 0 {
            assert(b.to_set().contains(b[0]));
            assert(a.contains(b[0]));
        }
        assert(a =~= b);
    } else {
        let (x, y) = (a.last(), b.last());
        assert(a.to_set().contains(a[a.len() - 1]));
        let p = choose|p: int| 0 <= p < b.len() && b[p] == x;
        assert(b.to_set().contains(b[b.len() - 1]));
        let q = choose|q: int| 0 <= q < a.len() && a[q] == y;
        if p < b.len() - 1 {
            assert(precedes(b[p], b[b.len() - 1]));
            if q < a.len() - 1 {
                assert(precedes(a[q], a[a.len() - 1]));
                lemma_transitive(x, y, x);
            }
            lemma_irreflexive(x);
        }
        assert(x == y);
        let (c, d) = (a.drop_last(), b.drop_last());
        lemma_front(a);
        lemma_front(b);
        assert(c.to_set() =~= d.to_set());
        lemma_ascending_unique(c, d);
        assert(a =~= c.push(x));
        assert(b =~= d.push(y));
    }
}

/// The keys before the last are in order, and the last is not among them.
proof fn lemma_front(keys: Seq<Seq<u8>>)
    requires
        ascending(keys),
        keys.len() > 0,
    ensures
        ascending(keys.drop_last()),
        keys.drop_last().to_set() == keys.to_set().remove(keys.last()),
{
    let front = keys.drop_last();
    let last = keys.len() - 1;
    assert forall|i: int, j: int| 0 <= i < j < front.len() implies precedes(
        #[trigger] front[i],
        #[trigger] front[j],
    ) by {
        assert(precedes(keys[i], keys[j]));
    }
    assert forall|k: Seq<u8>| front.contains(k) implies keys.contains(k) && k != keys.last() by {
        let i = choose|i: int| 0 <= i < front.len() && front[i] == k;
        assert(keys[i] == k);
        assert(precedes(keys[i], keys[last]));
        lemma_irreflexive(k);
    }
    assert forall|k: Seq<u8>| keys.contains(k) && k != keys.last() implies front.contains(k) by {
        let i = choose|i: int| 0 <= i < keys.len() && keys[i] == k;
        assert(front[i] == k);
    }
    assert(front.to_set() =~= keys.to_set().remove(keys.last()));
}

/// A key finds its place among others in order.
proof fn lemma_insert(keys: Seq<Seq<u8>>, key: Seq<u8>) -> (r: Seq<Seq<u8>>)
    requires
        ascending(keys),
        !keys.contains(key),
    ensures
        ascending(r),
        r.to_set() == keys.to_set().insert(key),
    decreases keys.len(),
{
    if keys.len() == 0 {
        let r = seq![key];
        assert(r[0] == key);
        assert(r.to_set() =~= keys.to_set().insert(key));
        r
    } else {
        let last = keys.last();
        lemma_front(keys);
        assert(keys[keys.len() - 1] == last);
        lemma_total(last, key);
        if precedes(last, key) {
            let r = keys.push(key);
            assert forall|i: int, j: int| 0 <= i < j < r.len() implies precedes(
                #[trigger] r[i],
                #[trigger] r[j],
            ) by {
                if j == keys.len() && i < keys.len() - 1 {
                    assert(precedes(keys[i], keys[keys.len() - 1]));
                    lemma_transitive(keys[i], last, key);
                } else if j < keys.len() {
                    assert(precedes(keys[i], keys[j]));
                }
            }
            lemma_push_set(keys, key);
            r
        } else {
            let front = keys.drop_last();
            assert(!front.contains(key)) by {
                if front.contains(key) {
                    assert(front.to_set().contains(key));
                }
            }
            let s = lemma_insert(front, key);
            let r = s.push(last);
            assert forall|i: int, j: int| 0 <= i < j < r.len() implies precedes(
                #[trigger] r[i],
                #[trigger] r[j],
            ) by {
                if j == s.len() {
                    assert(s.to_set().contains(s[i]));
                    if s[i] != key {
                        assert(front.to_set().contains(s[i]));
                        let p = choose|p: int| 0 <= p < front.len() && front[p] == s[i];
                        assert(precedes(keys[p], keys[keys.len() - 1]));
                    }
                } else {
                    assert(precedes(s[i], s[j]));
                }
            }
            lemma_push_set(s, last);
            assert(r.to_set() =~= keys.to_set().insert(key)) by {
                assert(keys.to_set().contains(last));
            }
            r
        }
    }
}

proof fn lemma_push_set(keys: Seq<Seq<u8>>, key: Seq<u8>)
    ensures
        keys.push(key).to_set() == keys.to_set().insert(key),
{
    let r = keys.push(key);
    assert forall|k: Seq<u8>| r.contains(k) <==> keys.contains(k) || k == key by {
        if keys.contains(k) {
            let i = choose|i: int| 0 <= i < keys.len() && keys[i] == k;
            assert(r[i] == k);
        }
        if k == key {
            assert(r[keys.len() as int] == k);
        }
    }
    assert(r.to_set() =~= keys.to_set().insert(key));
}

/// A finite set of keys can be put in order.
pub proof fn lemma_ascending_exists(keys: Set<Seq<u8>>) -> (r: Seq<Seq<u8>>)
    requires
        keys.finite(),
    ensures
        ascending(r),
        r.to_set() == keys,
    decreases keys.len(),
{
    if keys.len() == 0 {
        let r = Seq::<Seq<u8>>::empty();
        assert(r.to_set() =~= keys);
        r
    } else {
        let k = keys.choose();
        let rest = lemma_ascending_exists(keys.remove(k));
        assert(!rest.contains(k)) by {
            if rest.contains(k) {
                assert(rest.to_set().contains(k));
            }
        }
        let r = lemma_insert(rest, k);
        assert(r.to_set() =~= keys);
        r
    }
}

/// How two byte strings are ordered.
#[derive(Clone, Copy, Debug, PartialEq, Eq, Structural)]
pub enum Rank {
    Before,
    Same,
    After,
}

/// How `a` is ordered against `b`.
pub fn rank(a: &Vec<u8>, b: &Vec<u8>) -> (r: Rank)
    ensures
        r == Rank::Before <==> precedes(a@, b@),
        r == Rank::Same <==> a@ == b@,
        r == Rank::After <==> precedes(b@, a@),
{
    let mut i: usize = 0;
    assert(a@.skip(0) =~= a@);
    assert(b@.skip(0) =~= b@);
    while i < a.len() && i < b.len() && a[i] == b[i]
        invariant
            i <= a.len(),
            i <= b.len(),
            a@.take(i as int) == b@.take(i as int),
            precedes(a@, b@) == precedes(a@.skip(i as int), b@.skip(i as int)),
            precedes(b@, a@) == precedes(b@.skip(i as int), a@.skip(i as int)),
        decreases a.len() - i,
    {
        assert(a@.skip(i as int).skip(1) =~= a@.skip(i + 1));
        assert(b@.skip(i as int).skip(1) =~= b@.skip(i + 1));
        assert(a@.take(i + 1) =~= a@.take(i as int).push(a@[i as int]));
        assert(b@.take(i + 1) =~= b@.take(i as int).push(b@[i as int]));
        i += 1;
    }
    proof {
        lemma_irreflexive(a@);
        if i == a.len() && i == b.len() {
            assert(a@ =~= a@.take(i as int));
            assert(b@ =~= b@.take(i as int));
        }
    }
    if i == a.len() && i == b.len() {
        Rank::Same
    } else if i == a.len() {
        Rank::Before
    } else if i == b.len() {
        Rank::After
    } else if a[i] < b[i] {
        Rank::Before
    } else {
        Rank::After
    }
}

/// A set of keys.
#[derive(Debug)]
pub struct KeyDirectory {
    keys: Vec<Vec<u8>>,
}

impl View for KeyDirectory {
    type V = Seq<Seq<u8>>;

    /// The keys, in order.
    closed spec fn view(&self) -> Seq<Seq<u8>> {
        contents(self.keys@)
    }
}

/// The directory with `key` in it.
pub open spec fn with_key(keys: Seq<Seq<u8>>, key: Seq<u8>, after: Seq<Seq<u8>>) -> bool {
    &&& ascending(after)
    &&& forall|k: Seq<u8>| #[trigger] after.contains(k) <==> keys.contains(k) || k == key
}

/// The directory without `key`.
pub open spec fn without_key(keys: Seq<Seq<u8>>, key: Seq<u8>, after: Seq<Seq<u8>>) -> bool {
    &&& ascending(after)
    &&& forall|k: Seq<u8>| #[trigger] after.contains(k) <==> keys.contains(k) && k != key
}

impl KeyDirectory {
    /// The keys are in order, none twice.
    pub open spec fn wf(&self) -> bool {
        ascending(self@)
    }

    /// A directory of no keys.
    pub fn new() -> (r: Self)
        ensures
            r.wf(),
            r@ == Seq::<Seq<u8>>::empty(),
    {
        let r = KeyDirectory { keys: Vec::new() };
        assert(r@ =~= Seq::<Seq<u8>>::empty());
        r
    }

    /// A directory of keys that are already in order.
    pub fn from_sorted(keys: Vec<Vec<u8>>) -> (r: Self)
        requires
            ascending(contents(keys@)),
        ensures
            r.wf(),
            r@ == contents(keys@),
    {
        KeyDirectory { keys }
    }

    /// The keys, in order.
    pub fn keys(&self) -> (r: &[Vec<u8>])
        ensures
            contents(r@) == self@,
    {
        self.keys.as_slice()
    }

    /// Where `key` is, or belongs.
    fn locate(&self, key: &Vec<u8>) -> (r: (usize, bool))
        requires
            self.wf(),
        ensures
            r.0 <= self@.len(),
            self@.len() == self.keys@.len(),
            forall|i: int| 0 <= i < r.0 ==> precedes(#[trigger] self@[i], key@),
            r.1 ==> r.0 < self@.len() && self@[r.0 as int] == key@,
            !r.1 ==> forall|i: int| r.0 <= i < self@.len() ==> precedes(key@, #[trigger] self@[i]),
    {
        let mut low: usize = 0;
        let mut high: usize = self.keys.len();
        while low < high
            invariant
                low <= high <= self.keys@.len(),
                self.wf(),
                self@ == contents(self.keys@),
                forall|i: int| 0 <= i < low ==> precedes(#[trigger] self@[i], key@),
                forall|i: int| high <= i < self@.len() ==> precedes(key@, #[trigger] self@[i]),
            decreases high - low,
        {
            let mid: usize = low + (high - low) / 2;
            let ghost middle = self@[mid as int];
            match rank(&self.keys[mid], key) {
                Rank::Same => {
                    assert forall|i: int| 0 <= i < mid implies precedes(
                        #[trigger] self@[i],
                        key@,
                    ) by {
                        assert(precedes(self@[i], middle));
                    }
                    return (mid, true);
                },
                Rank::Before => {
                    assert forall|i: int| 0 <= i < mid + 1 implies precedes(
                        #[trigger] self@[i],
                        key@,
                    ) by {
                        if i < mid {
                            assert(precedes(self@[i], middle));
                            lemma_transitive(self@[i], middle, key@);
                        }
                    }
                    low = mid + 1;
                },
                Rank::After => {
                    assert forall|i: int| mid <= i < self@.len() implies precedes(
                        key@,
                        #[trigger] self@[i],
                    ) by {
                        if i > mid {
                            assert(precedes(middle, self@[i]));
                            lemma_transitive(key@, middle, self@[i]);
                        }
                    }
                    high = mid;
                },
            }
        }
        (low, false)
    }

    /// Whether `key` is in the directory.
    pub fn contains(&self, key: &Vec<u8>) -> (r: bool)
        requires
            self.wf(),
        ensures
            r == self@.contains(key@),
    {
        let (at, found) = self.locate(key);
        proof {
            lemma_irreflexive(key@);
            if found {
                assert(self@[at as int] == key@);
            } else {
                assert forall|i: int| 0 <= i < self@.len() implies self@[i] != key@ by {
                    if i < at {
                        assert(precedes(self@[i], key@));
                    } else {
                        assert(precedes(key@, self@[i]));
                    }
                }
            }
        }
        found
    }

    /// Add `key`.
    pub fn insert(&mut self, key: Vec<u8>)
        requires
            old(self).wf(),
        ensures
            final(self).wf(),
            with_key(old(self)@, key@, final(self)@),
    {
        let (at, found) = self.locate(&key);
        let ghost before = self@;
        let ghost k = key@;
        if found {
            assert(before[at as int] == k);
            return ;
        }
        self.keys.insert(at, key);
        proof {
            let after = self@;
            assert(after =~= before.insert(at as int, k));
            assert forall|i: int, j: int| 0 <= i < j < after.len() implies precedes(
                #[trigger] after[i],
                #[trigger] after[j],
            ) by {
                let a = if i < at { i } else { i - 1 };
                let b = if j < at { j } else { j - 1 };
                if i == at {
                    assert(precedes(k, before[b]));
                } else if j == at {
                    assert(precedes(before[a], k));
                } else {
                    assert(precedes(before[a], before[b]));
                }
            }
            assert forall|x: Seq<u8>| #[trigger] after.contains(x) <==> before.contains(x) || x
                == k by {
                if before.contains(x) {
                    let i = choose|i: int| 0 <= i < before.len() && before[i] == x;
                    if i < at {
                        assert(after[i] == x);
                    } else {
                        assert(after[i + 1] == x);
                    }
                }
                if x == k {
                    assert(after[at as int] == x);
                }
                if after.contains(x) {
                    let i = choose|i: int| 0 <= i < after.len() && after[i] == x;
                    if i < at {
                        assert(before[i] == x);
                    } else if i > at {
                        assert(before[i - 1] == x);
                    }
                }
            }
        }
    }

    /// Remove `key`.
    pub fn remove(&mut self, key: &Vec<u8>)
        requires
            old(self).wf(),
        ensures
            final(self).wf(),
            without_key(old(self)@, key@, final(self)@),
    {
        let (at, found) = self.locate(key);
        let ghost before = self@;
        let ghost k = key@;
        proof {
            lemma_irreflexive(k);
        }
        if !found {
            proof {
                assert forall|i: int| 0 <= i < before.len() implies before[i] != k by {
                    if i < at {
                        assert(precedes(before[i], k));
                    } else {
                        assert(precedes(k, before[i]));
                    }
                }
            }
            return ;
        }
        self.keys.remove(at);
        proof {
            let after = self@;
            assert(after =~= before.remove(at as int));
            assert forall|i: int, j: int| 0 <= i < j < after.len() implies precedes(
                #[trigger] after[i],
                #[trigger] after[j],
            ) by {
                let a = if i < at { i } else { i + 1 };
                let b = if j < at { j } else { j + 1 };
                assert(precedes(before[a], before[b]));
            }
            assert forall|x: Seq<u8>| #[trigger] after.contains(x) <==> before.contains(x) && x
                != k by {
                if after.contains(x) {
                    let i = choose|i: int| 0 <= i < after.len() && after[i] == x;
                    let a = if i < at { i } else { i + 1 };
                    assert(before[a] == x);
                    if a < at {
                        assert(precedes(before[a], before[at as int]));
                    } else {
                        assert(precedes(before[at as int], before[a]));
                    }
                }
                if before.contains(x) && x != k {
                    let i = choose|i: int| 0 <= i < before.len() && before[i] == x;
                    if i < at {
                        assert(after[i] == x);
                    } else {
                        assert(after[i - 1] == x);
                    }
                }
            }
        }
    }
}

// ---- laws ----
/// Keys are ordered by the first byte in which they differ, and one that another starts
/// with comes before it.
pub proof fn keys_are_ordered_byte_by_byte(
    common: Seq<u8>,
    x: u8,
    y: u8,
    more: Seq<u8>,
    other: Seq<u8>,
)
    ensures
        x != y ==> (precedes(common + seq![x] + more, common + seq![y] + other) <==> x < y),
        precedes(common, common + seq![x] + more),
        !precedes(common + seq![x] + more, common),
        !precedes(common, common),
    decreases common.len(),
{
    let a = common + seq![x] + more;
    let b = common + seq![y] + other;
    if common.len() > 0 {
        let tail = common.skip(1);
        keys_are_ordered_byte_by_byte(tail, x, y, more, other);
        assert(a.skip(1) =~= tail + seq![x] + more);
        assert(b.skip(1) =~= tail + seq![y] + other);
        assert(a[0] == common[0] && b[0] == common[0]);
    } else {
        assert(a[0] == x && b[0] == y);
    }
}

/// What is put into a directory is found in it, what is taken out is not, and every other
/// key is found if it was before.
pub proof fn directories_find_what_was_put_in(
    d: &mut KeyDirectory,
    key: Vec<u8>,
    put: (),
    e: &mut KeyDirectory,
    taken: (),
    other: &Vec<u8>,
    before: bool,
    after_put: bool,
    after_taken: bool,
)
    requires
        call_ensures(KeyDirectory::insert, (d, key), put),
        call_ensures(KeyDirectory::remove, (e, &key), taken),
        *old(e) == *old(d),
        call_ensures(KeyDirectory::contains, (old(d), other), before),
        call_ensures(KeyDirectory::contains, (final(d), other), after_put),
        call_ensures(KeyDirectory::contains, (final(e), other), after_taken),
    ensures
        after_put <==> before || other@ == key@,
        after_taken <==> before && other@ != key@,
{
}

/// A directory lists its keys in order, none twice.
pub proof fn directories_list_their_keys_in_order(
    d: &KeyDirectory,
    keys: &[Vec<u8>],
    i: int,
    j: int,
    order: Rank,
)
    requires
        d.wf(),
        call_ensures(KeyDirectory::keys, (d,), keys),
        0 <= i < j < keys@.len(),
        call_ensures(rank, (&keys@[i], &keys@[j]), order),
    ensures
        order == Rank::Before,
        keys@[i]@ != keys@[j]@,
        d@.contains(keys@[i]@),
{
    assert(contents(keys@).len() == keys@.len());
    assert(contents(keys@)[i] == keys@[i]@);
    assert(contents(keys@)[j] == keys@[j]@);
    assert(precedes(d@[i], d@[j]));
    lemma_irreflexive(d@[i]);
}

} // verus!
