//! A map from numbers to values that is walked by rising key.
use vstd::prelude::*;

verus! {

/// Keys rise strictly.
pub open spec fn keyed<T>(s: Seq<(u64, T)>) -> bool {
    forall|i: int, j: int| 0 <= i < j < s.len() ==> (#[trigger] s[i]).0 < (#[trigger] s[j]).0
}

/// The number of entries before key `k`.
pub open spec fn rank<T>(s: Seq<(u64, T)>, k: u64) -> nat
    decreases s.len(),
{
    if s.len() == 0 {
        0
    } else if s.last().0 < k {
        s.len()
    } else {
        rank(s.drop_last(), k)
    }
}

/// There is an entry of key `k`.
pub open spec fn holds<T>(s: Seq<(u64, T)>, k: u64) -> bool {
    rank(s, k) < s.len() && s[rank(s, k) as int].0 == k
}

/// The value of key `k`.
pub open spec fn at<T>(s: Seq<(u64, T)>, k: u64) -> T {
    s[rank(s, k) as int].1
}

/// The entries with `v` under key `k`.
pub open spec fn with<T>(s: Seq<(u64, T)>, k: u64, v: T) -> Seq<(u64, T)> {
    if holds(s, k) {
        s.update(rank(s, k) as int, (k, v))
    } else {
        s.insert(rank(s, k) as int, (k, v))
    }
}

/// The entries without key `k`.
pub open spec fn without<T>(s: Seq<(u64, T)>, k: u64) -> Seq<(u64, T)> {
    if holds(s, k) {
        s.remove(rank(s, k) as int)
    } else {
        s
    }
}

/// The keys.
pub open spec fn keys<T>(s: Seq<(u64, T)>) -> Seq<u64> {
    Seq::new(s.len(), |i: int| s[i].0)
}

/// The entries with `f` applied to each value.
pub open spec fn mapped<T, U>(s: Seq<(u64, T)>, f: spec_fn(T) -> U) -> Seq<(u64, U)> {
    Seq::new(s.len(), |i: int| (s[i].0, f(s[i].1)))
}

/// Where a key stands: everything before it is smaller, everything from it on is not.
pub proof fn lemma_rank<T>(s: Seq<(u64, T)>, k: u64)
    requires
        keyed(s),
    ensures
        rank(s, k) <= s.len(),
        forall|i: int| 0 <= i < rank(s, k) ==> (#[trigger] s[i]).0 < k,
        forall|i: int| rank(s, k) <= i < s.len() ==> (#[trigger] s[i]).0 >= k,
    decreases s.len(),
{
    if s.len() > 0 && s.last().0 >= k {
        let t = s.drop_last();
        assert(keyed(t)) by {
            assert forall|i: int, j: int| 0 <= i < j < t.len() implies (#[trigger] t[i]).0 < (
            #[trigger] t[j]).0 by {
                assert(s[i].0 < s[j].0);
            }
        }
        lemma_rank(t, k);
        assert forall|i: int| 0 <= i < rank(s, k) implies (#[trigger] s[i]).0 < k by {
            assert(t[i] == s[i]);
        }
        assert forall|i: int| rank(s, k) <= i < s.len() implies (#[trigger] s[i]).0 >= k by {
            if i < t.len() {
                assert(t[i] == s[i]);
            }
        }
    }
}

/// A place with the properties of a key's place is its place.
pub proof fn lemma_rank_is<T>(s: Seq<(u64, T)>, k: u64, r: int)
    requires
        keyed(s),
        0 <= r <= s.len(),
        r > 0 ==> s[r - 1].0 < k,
        r < s.len() ==> s[r].0 >= k,
    ensures
        rank(s, k) == r,
{
    lemma_rank(s, k);
    let q = rank(s, k) as int;
    if q < r {
        assert(s[r - 1].0 >= k);
    } else if q > r {
        assert(s[r].0 < k);
    }
}

/// Putting an entry in keeps the keys rising.
pub proof fn lemma_with<T>(s: Seq<(u64, T)>, k: u64, v: T)
    requires
        keyed(s),
    ensures
        keyed(with(s, k, v)),
        holds(with(s, k, v), k),
        at(with(s, k, v), k) == v,
{
    lemma_rank(s, k);
    lemma_rank_is(with(s, k, v), k, rank(s, k) as int);
}

/// Putting an entry in touches no other entry.
pub proof fn lemma_with_other<T>(s: Seq<(u64, T)>, k: u64, v: T, o: u64)
    requires
        keyed(s),
        o != k,
    ensures
        holds(with(s, k, v), o) == holds(s, o),
        holds(s, o) ==> at(with(s, k, v), o) == at(s, o),
{
    lemma_with(s, k, v);
    lemma_rank(s, k);
    lemma_rank(s, o);
    let t = with(s, k, v);
    let r = rank(s, k) as int;
    let p = rank(s, o) as int;
    if holds(s, k) {
        lemma_same_keys(s, t, o);
    } else if o < k {
        if p < r {
            assert(t[p] == s[p]);
        } else {
            if p > r {
                assert(s[r].0 < o);
            }
            assert(t[p].0 == k);
            if p < s.len() {
                assert(s[p].0 >= k);
            }
        }
        if p > 0 {
            assert(t[p - 1] == s[p - 1]);
        }
        lemma_rank_is(t, o, p);
    } else {
        if p < r {
            assert(s[p].0 < k);
        }
        if p < s.len() {
            assert(t[p + 1] == s[p]);
        }
        if p > r {
            assert(t[p] == s[p - 1]);
        } else {
            assert(t[p].0 == k);
        }
        lemma_rank_is(t, o, p + 1);
    }
}

/// Taking an entry out keeps the keys rising.
pub proof fn lemma_without<T>(s: Seq<(u64, T)>, k: u64)
    requires
        keyed(s),
    ensures
        keyed(without(s, k)),
        !holds(without(s, k), k),
{
    lemma_rank(s, k);
    let t = without(s, k);
    if holds(s, k) {
        let r = rank(s, k) as int;
        assert forall|i: int| 0 <= i < t.len() implies (#[trigger] t[i]).0 != k by {
            if i < r {
                assert(t[i] == s[i]);
            } else {
                assert(t[i] == s[i + 1]);
                assert(s[r].0 < s[i + 1].0);
            }
        }
        assert(keyed(t)) by {
            assert forall|i: int, j: int| 0 <= i < j < t.len() implies (#[trigger] t[i]).0 < (
            #[trigger] t[j]).0 by {
                let a = if i < r {
                    i
                } else {
                    i + 1
                };
                let b = if j < r {
                    j
                } else {
                    j + 1
                };
                assert(s[a].0 < s[b].0);
            }
        }
        if holds(t, k) {
            assert(t[rank(t, k) as int].0 == k);
        }
    }
}

/// An entry that stands somewhere stands at its key's place.
pub proof fn lemma_found<T>(s: Seq<(u64, T)>, i: int)
    requires
        keyed(s),
        0 <= i < s.len(),
    ensures
        rank(s, s[i].0) == i,
        holds(s, s[i].0),
        at(s, s[i].0) == s[i].1,
{
    lemma_rank_is(s, s[i].0, i);
}

/// What is found among some of the entries is found among all of them.
pub proof fn lemma_among<T>(s: Seq<(u64, T)>, t: Seq<(u64, T)>, k: u64)
    requires
        keyed(s),
        keyed(t),
        forall|i: int| 0 <= i < t.len() ==> s.contains(#[trigger] t[i]),
    ensures
        holds(t, k) ==> holds(s, k) && at(t, k) == at(s, k),
{
    if holds(t, k) {
        let e = t[rank(t, k) as int];
        let i = choose|i: int| 0 <= i < s.len() && s[i] == e;
        lemma_found(s, i);
    }
}

/// The entries that satisfy a condition stand in order, and are those of all entries that do.
pub proof fn lemma_filtered<T>(s: Seq<(u64, T)>, p: spec_fn((u64, T)) -> bool)
    requires
        keyed(s),
    ensures
        keyed(s.filter(p)),
        forall|i: int| 0 <= i < s.filter(p).len() ==> s.contains(#[trigger] s.filter(p)[i]),
        forall|i: int| 0 <= i < s.len() && p(#[trigger] s[i]) ==> s.filter(p).contains(s[i]),
    decreases s.len(),
{
    reveal(Seq::filter);
    if s.len() > 0 {
        let t = s.drop_last();
        let u = t.filter(p);
        let r = s.filter(p);
        assert(keyed(t)) by {
            assert forall|i: int, j: int| 0 <= i < j < t.len() implies (#[trigger] t[i]).0 < (
            #[trigger] t[j]).0 by {
                assert(s[i].0 < s[j].0);
            }
        }
        lemma_filtered(t, p);
        assert forall|i: int| 0 <= i < r.len() implies s.contains(#[trigger] r[i]) by {
            if i < u.len() {
                assert(r[i] == u[i]);
                let n = choose|n: int| 0 <= n < t.len() && t[n] == u[i];
                assert(s[n] == r[i]);
            } else {
                assert(s[s.len() - 1] == r[i]);
            }
        }
        assert forall|i: int| 0 <= i < s.len() && p(#[trigger] s[i]) implies r.contains(s[i]) by {
            if i < t.len() {
                assert(t[i] == s[i]);
                let n = choose|n: int| 0 <= n < u.len() && u[n] == s[i];
                assert(r[n] == s[i]);
            } else {
                assert(r[r.len() - 1] == s[i]);
            }
        }
        assert forall|i: int, j: int| 0 <= i < j < r.len() implies (#[trigger] r[i]).0 < (
        #[trigger] r[j]).0 by {
            assert(r[i] == u[i]);
            if j < u.len() {
                assert(r[j] == u[j]);
            } else {
                let n = choose|n: int| 0 <= n < t.len() && t[n] == u[i];
                assert(s[n].0 < s[s.len() - 1].0);
            }
        }
    }
}

/// The place of a key does not depend on the values.
pub proof fn lemma_same_keys<T, U>(s: Seq<(u64, T)>, t: Seq<(u64, U)>, k: u64)
    requires
        s.len() == t.len(),
        forall|i: int| 0 <= i < s.len() ==> (#[trigger] s[i]).0 == t[i].0,
    ensures
        rank(s, k) == rank(t, k),
        holds(s, k) == holds(t, k),
        keyed(s) ==> keyed(t),
    decreases s.len(),
{
    if s.len() > 0 {
        assert(s[s.len() - 1].0 == t[t.len() - 1].0);
        let a = s.drop_last();
        let b = t.drop_last();
        assert forall|i: int| 0 <= i < a.len() implies (#[trigger] a[i]).0 == b[i].0 by {
            assert(a[i] == s[i] && b[i] == t[i]);
        }
        lemma_same_keys(a, b, k);
        lemma_rank_range(s, k);
        if rank(s, k) < s.len() {
            assert(s[rank(s, k) as int].0 == t[rank(s, k) as int].0);
        }
        if keyed(s) {
            assert forall|i: int, j: int| 0 <= i < j < t.len() implies (#[trigger] t[i]).0 < (
            #[trigger] t[j]).0 by {
                assert(s[i].0 == t[i].0 && s[j].0 == t[j].0);
            }
        }
    }
}

proof fn lemma_rank_range<T>(s: Seq<(u64, T)>, k: u64)
    ensures
        rank(s, k) <= s.len(),
    decreases s.len(),
{
    if s.len() > 0 {
        lemma_rank_range(s.drop_last(), k);
    }
}

/// Mapping the values commutes with looking up, putting in and taking out.
pub proof fn lemma_mapped<T, U>(s: Seq<(u64, T)>, f: spec_fn(T) -> U, k: u64)
    ensures
        rank(mapped(s, f), k) == rank(s, k),
        holds(mapped(s, f), k) == holds(s, k),
        holds(s, k) ==> at(mapped(s, f), k) == f(at(s, k)),
        keyed(s) ==> keyed(mapped(s, f)),
        mapped(without(s, k), f) == without(mapped(s, f), k),
        forall|v: T| #[trigger] mapped(with(s, k, v), f) == with(mapped(s, f), k, f(v)),
{
    let t = mapped(s, f);
    lemma_same_keys(s, t, k);
    lemma_rank_range(s, k);
    assert(mapped(without(s, k), f) =~= without(t, k));
    assert forall|v: T| #[trigger] mapped(with(s, k, v), f) == with(t, k, f(v)) by {
        assert(mapped(with(s, k, v), f) =~= with(t, k, f(v)));
    }
}

/// A map from numbers to values, kept by rising key.
#[derive(Debug)]
pub struct Table<T> {
    items: Vec<(u64, T)>,
}

impl<T> View for Table<T> {
    type V = Seq<(u64, T)>;

    closed spec fn view(&self) -> Seq<(u64, T)> {
        self.items@
    }
}

impl<T> Table<T> {
    /// No entries.
    pub fn new() -> (t: Table<T>)
        ensures
            t@ == Seq::<(u64, T)>::empty(),
    {
        Table { items: Vec::new() }
    }

    /// The number of entries.
    pub fn len(&self) -> (n: usize)
        ensures
            n == self@.len(),
    {
        self.items.len()
    }

    /// The key of entry `i`.
    pub fn key(&self, i: usize) -> (k: u64)
        requires
            i < self@.len(),
        ensures
            k == self@[i as int].0,
    {
        self.items[i].0
    }

    /// The value of entry `i`.
    pub fn value(&self, i: usize) -> (v: &T)
        requires
            i < self@.len(),
        ensures
            *v == self@[i as int].1,
    {
        &self.items[i].1
    }

    /// The value of entry `i`, to be changed.
    pub fn value_mut(&mut self, i: usize) -> (v: &mut T)
        requires
            i < old(self)@.len(),
        ensures
            *v == old(self)@[i as int].1,
            final(self)@ == old(self)@.update(i as int, (old(self)@[i as int].0, *final(v))),
    {
        &mut self.items[i].1
    }

    /// Where the entry of key `k` stands.
    pub fn find(&self, k: u64) -> (r: Option<usize>)
        requires
            keyed(self@),
        ensures
            match r {
                Some(i) => holds(self@, k) && i == rank(self@, k) && i < self@.len(),
                None => !holds(self@, k),
            },
    {
        let mut i: usize = 0;
        while i < self.items.len()
            invariant
                i <= self@.len(),
                self@.len() == self.items.len(),
                keyed(self@),
                forall|j: int| 0 <= j < i ==> (#[trigger] self@[j]).0 < k,
            decreases self.items.len() - i,
        {
            if self.items[i].0 >= k {
                proof {
                    lemma_rank_is(self@, k, i as int);
                }
                return if self.items[i].0 == k {
                    Some(i)
                } else {
                    None
                };
            }
            i = i + 1;
        }
        proof {
            lemma_rank_is(self@, k, i as int);
        }
        None
    }

    /// Puts `v` under key `k`.
    pub fn put(&mut self, k: u64, v: T)
        requires
            keyed(old(self)@),
        ensures
            final(self)@ == with(old(self)@, k, v),
            keyed(final(self)@),
    {
        let ghost s = self@;
        let mut i: usize = 0;
        while i < self.items.len() && self.items[i].0 < k
            invariant
                i <= s.len(),
                s == self@,
                s.len() == self.items.len(),
                forall|j: int| 0 <= j < i ==> (#[trigger] s[j]).0 < k,
            decreases self.items.len() - i,
        {
            i = i + 1;
        }
        proof {
            lemma_rank_is(s, k, i as int);
            lemma_with(s, k, v);
        }
        if i < self.items.len() && self.items[i].0 == k {
            self.items.set(i, (k, v));
        } else {
            self.items.insert(i, (k, v));
        }
    }

    /// Takes entry `i` out.
    pub fn take(&mut self, i: usize) -> (e: (u64, T))
        requires
            i < old(self)@.len(),
        ensures
            e == old(self)@[i as int],
            final(self)@ == old(self)@.remove(i as int),
    {
        self.items.remove(i)
    }

    /// Takes the entry of key `k` out, if there is one.
    pub fn remove(&mut self, k: u64) -> (v: Option<T>)
        requires
            keyed(old(self)@),
        ensures
            final(self)@ == without(old(self)@, k),
            keyed(final(self)@),
            match v {
                Some(x) => holds(old(self)@, k) && x == at(old(self)@, k),
                None => !holds(old(self)@, k),
            },
    {
        proof {
            lemma_without(self@, k);
        }
        match self.find(k) {
            Some(i) => {
                let e: (u64, T) = self.take(i);
                Some(e.1)
            },
            None => None,
        }
    }
}

} // verus!
