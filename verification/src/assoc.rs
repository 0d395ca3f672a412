//! Insertion-ordered maps with string keys.
//!
//! Each intermediate mapping of a shard is held as a pair of parallel
//! vectors, so that iteration order is the order of first insertion and
//! every operation is verified against the sequence-of-pairs model.

use vstd::prelude::*;

verus! {

/// First index of the pair holding key `k`, or `-1` if there is none.
pub open spec fn find_key<T>(s: Seq<(Seq<char>, T)>, k: Seq<char>) -> int
    decreases s.len(),
{
    if s.len() == 0 {
        -1
    } else if s[0].0 == k {
        0
    } else {
        let r = find_key(s.drop_first(), k);
        if r == -1 {
            -1
        } else {
            r + 1
        }
    }
}

/// Whether some pair holds key `k`.
pub open spec fn assoc_has<T>(s: Seq<(Seq<char>, T)>, k: Seq<char>) -> bool {
    find_key(s, k) >= 0
}

/// The value of the first pair holding key `k`.
pub open spec fn assoc_get<T>(s: Seq<(Seq<char>, T)>, k: Seq<char>) -> T
    recommends
        assoc_has(s, k),
{
    s[find_key(s, k)].1
}

/// The sequence after binding `k` to `v`: the pair of `k` is replaced in
/// place if one exists, else a new pair is appended.
pub open spec fn assoc_insert<T>(s: Seq<(Seq<char>, T)>, k: Seq<char>, v: T) -> Seq<
    (Seq<char>, T),
> {
    if assoc_has(s, k) {
        s.update(find_key(s, k), (k, v))
    } else {
        s.push((k, v))
    }
}

/// Whether all keys are distinct.
pub open spec fn assoc_wf<T>(s: Seq<(Seq<char>, T)>) -> bool {
    forall|i: int, j: int| 0 <= i < j < s.len() ==> s[i].0 != s[j].0
}

pub proof fn lemma_find_key_props<T>(s: Seq<(Seq<char>, T)>, k: Seq<char>)
    ensures
        -1 <= find_key(s, k) < s.len(),
        find_key(s, k) >= 0 ==> s[find_key(s, k)].0 == k,
        find_key(s, k) == -1 ==> forall|i: int| 0 <= i < s.len() ==> s[i].0 != k,
        find_key(s, k) >= 0 ==> forall|i: int| 0 <= i < find_key(s, k) ==> s[i].0 != k,
    decreases s.len(),
{
    if s.len() == 0 {
    } else if s[0].0 == k {
    } else {
        let t = s.drop_first();
        lemma_find_key_props(t, k);
        if find_key(s, k) == -1 {
            assert forall|i: int| 0 <= i < s.len() implies s[i].0 != k by {
                if i >= 1 {
                    assert(t[i - 1] == s[i]);
                    assert(t[i - 1].0 != k);
                }
            }
        } else {
            let f = find_key(s, k);
            assert(s[f] == t[f - 1]);
            assert forall|i: int| 0 <= i < f implies s[i].0 != k by {
                if i >= 1 {
                    assert(t[i - 1] == s[i]);
                    assert(t[i - 1].0 != k);
                }
            }
        }
    }
}

/// Under distinct keys, the index of any pair holding `k` is the index
/// `find_key` returns.
pub proof fn lemma_find_key_unique<T>(s: Seq<(Seq<char>, T)>, k: Seq<char>, j: int)
    requires
        assoc_wf(s),
        0 <= j < s.len(),
        s[j].0 == k,
    ensures
        find_key(s, k) == j,
{
    lemma_find_key_props(s, k);
    let f = find_key(s, k);
    if f == -1 {
        assert(s[j].0 != k);
    } else if f < j {
        assert(s[f].0 != s[j].0);
    } else if f > j {
        assert(s[j].0 != s[f].0);
    }
}

/// Distinct keys are kept by an insertion.
pub proof fn lemma_assoc_insert_wf<T>(s: Seq<(Seq<char>, T)>, k: Seq<char>, v: T)
    requires
        assoc_wf(s),
    ensures
        assoc_wf(assoc_insert(s, k, v)),
{
    lemma_find_key_props(s, k);
    let t = assoc_insert(s, k, v);
    assert forall|i: int, j: int| 0 <= i < j < t.len() implies t[i].0 != t[j].0 by {
        if assoc_has(s, k) {
            let f = find_key(s, k);
            assert(s[f].0 == k);
            if i != f {
                assert(t[i] == s[i]);
            }
            if j != f {
                assert(t[j] == s[j]);
            }
        } else {
            if i < s.len() {
                assert(t[i] == s[i]);
            }
            if j < s.len() {
                assert(t[j] == s[j]);
            }
        }
    }
}

/// After binding `k` to `v`, key `k` is bound to `v`.
pub proof fn lemma_assoc_insert_same<T>(s: Seq<(Seq<char>, T)>, k: Seq<char>, v: T)
    requires
        assoc_wf(s),
    ensures
        assoc_has(assoc_insert(s, k, v), k),
        assoc_get(assoc_insert(s, k, v), k) == v,
{
    lemma_find_key_props(s, k);
    lemma_assoc_insert_wf(s, k, v);
    let t = assoc_insert(s, k, v);
    if assoc_has(s, k) {
        let f = find_key(s, k);
        assert(t[f].0 == k);
        lemma_find_key_unique(t, k, f);
    } else {
        assert(t[s.len() as int].0 == k);
        lemma_find_key_unique(t, k, s.len() as int);
    }
}

/// Binding `k` leaves every other key's binding unchanged.
pub proof fn lemma_assoc_insert_other<T>(s: Seq<(Seq<char>, T)>, k: Seq<char>, v: T, k2: Seq<char>)
    requires
        assoc_wf(s),
        k2 != k,
    ensures
        assoc_has(assoc_insert(s, k, v), k2) == assoc_has(s, k2),
        assoc_has(s, k2) ==> assoc_get(assoc_insert(s, k, v), k2) == assoc_get(s, k2),
{
    lemma_find_key_props(s, k);
    lemma_find_key_props(s, k2);
    lemma_assoc_insert_wf(s, k, v);
    let t = assoc_insert(s, k, v);
    lemma_find_key_props(t, k2);
    if assoc_has(s, k2) {
        let f2 = find_key(s, k2);
        assert(s[f2].0 == k2);
        if assoc_has(s, k) {
            let f = find_key(s, k);
            assert(f != f2);
            assert(t[f2] == s[f2]);
        } else {
            assert(t[f2] == s[f2]);
        }
        lemma_find_key_unique(t, k2, f2);
    } else {
        if assoc_has(t, k2) {
            let g2 = find_key(t, k2);
            assert(t[g2].0 == k2);
            if assoc_has(s, k) {
                assert(t[g2] == s[g2]);
                assert(s[g2].0 != k2);
            } else {
                if g2 < s.len() {
                    assert(t[g2] == s[g2]);
                    assert(s[g2].0 != k2);
                } else {
                    assert(t[g2].0 == k);
                }
            }
        }
    }
}

/// Binding an absent key appends its pair, binds it, and binding it
/// again replaces only that pair.
pub proof fn lemma_assoc_insert_twice_absent<T>(s: Seq<(Seq<char>, T)>, k: Seq<char>, v1: T, v2: T)
    requires
        !assoc_has(s, k),
    ensures
        assoc_insert(s, k, v1) == s.push((k, v1)),
        assoc_has(assoc_insert(s, k, v1), k),
        assoc_get(assoc_insert(s, k, v1), k) == v1,
        assoc_insert(assoc_insert(s, k, v1), k, v2) == s.push((k, v2)),
{
    lemma_find_key_props(s, k);
    let t = s.push((k, v1));
    lemma_find_key_props(t, k);
    let f = find_key(t, k);
    assert(t[s.len() as int].0 == k);
    if f == -1 {
        assert(t[s.len() as int].0 != k);
    }
    if f < s.len() {
        assert(t[f] == s[f]);
        assert(s[f].0 != k);
    }
    assert(f == s.len() as int);
    assert(t.update(f, (k, v2)) =~= s.push((k, v2)));
}

/// A property of every value in the sequence is kept by inserting a
/// value that has it.
pub proof fn lemma_assoc_insert_values<T>(
    s: Seq<(Seq<char>, T)>,
    k: Seq<char>,
    v: T,
    p: spec_fn(T) -> bool,
)
    requires
        forall|i: int| 0 <= i < s.len() ==> p(#[trigger] s[i].1),
        p(v),
    ensures
        forall|i: int|
            0 <= i < assoc_insert(s, k, v).len() ==> p(#[trigger] assoc_insert(s, k, v)[i].1),
{
    lemma_find_key_props(s, k);
    let t = assoc_insert(s, k, v);
    assert forall|i: int| 0 <= i < t.len() implies p(t[i].1) by {
        if assoc_has(s, k) {
            if i != find_key(s, k) {
                assert(t[i] == s[i]);
            }
        } else {
            if i < s.len() {
                assert(t[i] == s[i]);
            }
        }
    }
}

/// An insertion-ordered map from strings to values, modelled as the
/// sequence of its pairs in insertion order.
#[derive(Debug)]
pub struct AssocMap<V> {
    keys: Vec<String>,
    vals: Vec<V>,
}

impl<V: View> View for AssocMap<V> {
    type V = Seq<(Seq<char>, V::V)>;

    closed spec fn view(&self) -> Seq<(Seq<char>, V::V)> {
        Seq::new(self.keys@.len(), |i: int| (self.keys@[i]@, self.vals@[i]@))
    }
}

impl<V: View> AssocMap<V> {
    /// The two vectors run in step and no key repeats.
    pub closed spec fn wf(self) -> bool {
        self.keys@.len() == self.vals@.len() && assoc_wf(self@)
    }

    /// Well-formedness makes the keys of the model distinct.
    pub proof fn lemma_wf_distinct(self)
        requires
            self.wf(),
        ensures
            assoc_wf(self@),
    {
    }

    /// An empty map.
    pub fn new() -> (r: Self)
        ensures
            r@ == Seq::<(Seq<char>, V::V)>::empty(),
            r.wf(),
    {
        let r = AssocMap { keys: Vec::new(), vals: Vec::new() };
        proof {
            assert(r@ =~= Seq::<(Seq<char>, V::V)>::empty());
        }
        r
    }

    /// Index of the pair holding key `k`, if one exists.
    fn position(&self, k: &String) -> (r: Option<usize>)
        ensures
            r matches Some(i) ==> i < self@.len() && self@[i as int].0 == k@ && forall|j: int|
                0 <= j < i ==> self@[j].0 != k@,
            r is None ==> forall|i: int| 0 <= i < self@.len() ==> self@[i].0 != k@,
    {
        let n = self.keys.len();
        let mut i: usize = 0;
        while i < n
            invariant
                0 <= i <= n,
                n == self.keys@.len(),
                forall|j: int| 0 <= j < i ==> self@[j].0 != k@,
            decreases n - i,
        {
            if self.keys[i].eq(k) {
                return Some(i);
            }
            i = i + 1;
        }
        None
    }

    /// The value bound to key `k`, if one exists.
    pub fn get(&self, k: &String) -> (r: Option<&V>)
        requires
            self.wf(),
        ensures
            (r is Some) == assoc_has(self@, k@),
            r matches Some(v) ==> v@ == assoc_get(self@, k@),
    {
        proof {
            lemma_find_key_props(self@, k@);
        }
        match self.position(k) {
            None => None,
            Some(i) => {
                proof {
                    assert(find_key(self@, k@) == i as int);
                }
                Some(&self.vals[i])
            },
        }
    }

    /// Whether key `k` is bound.
    pub fn contains_key(&self, k: &String) -> (r: bool)
        ensures
            r == assoc_has(self@, k@),
    {
        proof {
            lemma_find_key_props(self@, k@);
        }
        match self.position(k) {
            None => false,
            Some(_) => true,
        }
    }

    /// Bind key `k` to `v`: in place if the key is already bound, else by
    /// appending a new pair.
    pub fn insert(&mut self, k: String, v: V)
        requires
            old(self).wf(),
        ensures
            final(self).wf(),
            final(self)@ == assoc_insert(old(self)@, k@, v@),
    {
        proof {
            lemma_find_key_props(self@, k@);
        }
        match self.position(&k) {
            Some(i) => {
                proof {
                    assert(find_key(self@, k@) == i as int);
                }
                self.vals.set(i, v);
                proof {
                    assert(self.keys@[i as int]@ == k@);
                    assert(self@ =~= assoc_insert(old(self)@, k@, v@));
                }
            },
            None => {
                self.keys.push(k);
                self.vals.push(v);
                proof {
                    assert(self@ =~= assoc_insert(old(self)@, k@, v@));
                }
            },
        }
    }

    /// Number of pairs in the map.
    pub fn len(&self) -> (n: usize)
        requires
            self.wf(),
        ensures
            n == self@.len(),
    {
        self.keys.len()
    }

    /// The key of the pair at position `i`.
    pub fn key_at(&self, i: usize) -> (r: &String)
        requires
            self.wf(),
            i < self@.len(),
        ensures
            r@ == self@[i as int].0,
    {
        &self.keys[i]
    }

    /// The value of the pair at position `i`.
    pub fn val_at(&self, i: usize) -> (r: &V)
        requires
            self.wf(),
            i < self@.len(),
        ensures
            r@ == self@[i as int].1,
    {
        &self.vals[i]
    }
}

} // verus!
