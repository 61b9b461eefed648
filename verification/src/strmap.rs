//! An ordered map keyed by names. Entries are kept sorted by key, so walking
//! the map visits names in the same order as a `BTreeMap<String, _>` would.

use vstd::prelude::*;

use crate::sitrep::names;
use crate::text::{lemma_lt_order, same, seq_lt, str_lt, strictly_sorted};

verus! {

/// Map from names to values, with keys held in strictly increasing order.
#[derive(Debug)]
pub struct StrMap<V> {
    entries: Vec<(String, V)>,
}

impl<V> StrMap<V> {
    /// The keys, in order.
    pub closed spec fn key_list(&self) -> Seq<Seq<char>> {
        self.entries@.map_values(|e: (String, V)| e.0@)
    }

    /// The values, in key order.
    pub closed spec fn value_list(&self) -> Seq<V> {
        self.entries@.map_values(|e: (String, V)| e.1)
    }

    #[verifier::type_invariant]
    pub open spec fn inv(&self) -> bool {
        &&& strictly_sorted(self.key_list())
        &&& self.key_list().len() == self.value_list().len()
    }

    /// Whether `k` is a key.
    pub open spec fn has(&self, k: Seq<char>) -> bool {
        self.key_list().contains(k)
    }

    /// Where `k` sits among the keys (meaningful when `has(k)`).
    pub open spec fn index_of(&self, k: Seq<char>) -> int {
        choose|i: int| 0 <= i < self.key_list().len() && self.key_list()[i] == k
    }

    /// The value held under `k` (meaningful when `has(k)`).
    pub open spec fn value_of(&self, k: Seq<char>) -> V {
        self.value_list()[self.index_of(k)]
    }

    /// Keys are unique, so a key found at `i` has its value at `i`.
    pub proof fn lemma_index_of(&self, i: int)
        requires
            self.inv(),
            0 <= i < self.key_list().len(),
        ensures
            self.index_of(self.key_list()[i]) == i,
            self.value_of(self.key_list()[i]) == self.value_list()[i],
    {
        let k = self.key_list()[i];
        let j = self.index_of(k);
        assert(0 <= j < self.key_list().len() && self.key_list()[j] == k);
        if j != i {
            if j < i {
                assert(seq_lt(self.key_list()[j], self.key_list()[i]));
            } else {
                assert(seq_lt(self.key_list()[i], self.key_list()[j]));
            }
            lemma_lt_order(k, k, k);
        }
    }

    /// Whether `v` is held under `k`.
    pub open spec fn maps(&self, k: Seq<char>, v: V) -> bool {
        exists|i: int|
            0 <= i < self.key_list().len() && self.key_list()[i] == k && self.value_list()[i] == v
    }

    pub fn new() -> (m: Self)
        ensures
            m.key_list() == Seq::<Seq<char>>::empty(),
            m.value_list() == Seq::<V>::empty(),
    {
        let m = StrMap { entries: Vec::new() };
        assert(m.key_list() =~= Seq::<Seq<char>>::empty());
        assert(m.value_list() =~= Seq::<V>::empty());
        m
    }

    pub fn len(&self) -> (n: usize)
        ensures
            n == self.key_list().len(),
            n == self.value_list().len(),
            self.inv(),
    {
        proof {
            use_type_invariant(self);
        }
        self.entries.len()
    }

    pub fn key_at(&self, i: usize) -> (k: &String)
        requires
            i < self.key_list().len(),
        ensures
            k@ == self.key_list()[i as int],
            self.inv(),
    {
        proof {
            use_type_invariant(self);
        }
        &self.entries[i].0
    }

    pub fn value_at(&self, i: usize) -> (v: &V)
        requires
            i < self.value_list().len(),
        ensures
            *v == self.value_list()[i as int],
            self.inv(),
    {
        proof {
            use_type_invariant(self);
        }
        &self.entries[i].1
    }

    /// Binary search: `Ok(i)` where the key sits, or `Err(i)` where it would go.
    pub fn find(&self, k: &str) -> (r: Result<usize, usize>)
        ensures
            self.inv(),
            match r {
                Ok(i) => i < self.key_list().len() && self.key_list()[i as int] == k@,
                Err(i) => {
                    &&& i <= self.key_list().len()
                    &&& !self.key_list().contains(k@)
                    &&& forall|j: int| 0 <= j < i ==> seq_lt(#[trigger] self.key_list()[j], k@)
                    &&& forall|j: int|
                        i <= j < self.key_list().len() ==> seq_lt(k@, #[trigger] self.key_list()[j])
                },
            },
    {
        proof {
            use_type_invariant(self);
        }
        let ghost keys = self.key_list();
        let mut lo: usize = 0;
        let mut hi: usize = self.entries.len();
        while lo < hi
            invariant
                keys == self.key_list(),
                self.inv(),
                lo <= hi <= keys.len(),
                keys.len() == self.entries.len(),
                forall|j: int| 0 <= j < lo ==> seq_lt(#[trigger] keys[j], k@),
                forall|j: int| hi <= j < keys.len() ==> seq_lt(k@, #[trigger] keys[j]),
            decreases hi - lo,
        {
            let mid = lo + (hi - lo) / 2;
            let key = &self.entries[mid].0;
            assert(key@ == keys[mid as int]);
            if same(key.as_str(), k) {
                return Ok(mid);
            }
            if str_lt(key.as_str(), k) {
                proof {
                    assert forall|j: int| 0 <= j < mid + 1 implies seq_lt(#[trigger] keys[j], k@) by {
                        if j < mid {
                            assert(seq_lt(keys[j], keys[mid as int]));
                            lemma_lt_order(keys[j], keys[mid as int], k@);
                        }
                    }
                }
                lo = mid + 1;
            } else {
                proof {
                    lemma_lt_order(k@, keys[mid as int], k@);
                    assert forall|j: int| mid <= j < keys.len() implies seq_lt(k@, #[trigger] keys[j]) by {
                        if j > mid {
                            assert(seq_lt(keys[mid as int], keys[j]));
                            lemma_lt_order(k@, keys[mid as int], keys[j]);
                        }
                    }
                }
                hi = mid;
            }
        }
        proof {
            if keys.contains(k@) {
                let j = choose|j: int| 0 <= j < keys.len() && keys[j] == k@;
                lemma_lt_order(k@, k@, k@);
                if j < lo {
                    assert(seq_lt(keys[j], k@));
                } else {
                    assert(seq_lt(k@, keys[j]));
                }
            }
        }
        Err(lo)
    }

    pub fn contains_key(&self, k: &str) -> (r: bool)
        ensures
            r == self.has(k@),
            self.inv(),
    {
        match self.find(k) {
            Ok(_) => true,
            Err(_) => false,
        }
    }

    pub fn get(&self, k: &str) -> (r: Option<&V>)
        ensures
            self.inv(),
            match r {
                Some(v) => self.has(k@) && self.maps(k@, *v) && *v == self.value_of(k@),
                None => !self.has(k@),
            },
    {
        match self.find(k) {
            Ok(i) => {
                assert(self.value_list()[i as int] == self.entries@[i as int].1);
                proof {
                    self.lemma_index_of(i as int);
                }
                Some(&self.entries[i].1)
            },
            Err(_) => None,
        }
    }

    /// Set the value under `k`, adding the key in order when it is new.
    pub fn insert(&mut self, k: String, v: V)
        ensures
            final(self).inv(),
            forall|x: Seq<char>| #[trigger] final(self).key_list().contains(x) <==> (old(self).key_list().contains(x) || x == k@),
            old(self).has(k@) ==> exists|i: int|
                {
                    &&& 0 <= i < old(self).key_list().len()
                    &&& old(self).key_list()[i] == k@
                    &&& final(self).key_list() == old(self).key_list()
                    &&& final(self).value_list() == old(self).value_list().update(i, v)
                },
            !old(self).has(k@) ==> exists|i: int|
                {
                    &&& 0 <= i <= old(self).key_list().len()
                    &&& final(self).key_list() == old(self).key_list().insert(i, k@)
                    &&& final(self).value_list() == old(self).value_list().insert(i, v)
                },
    {
        proof {
            use_type_invariant(&*self);
        }
        match self.find(k.as_str()) {
            Ok(i) => {
                let ghost old_keys = self.key_list();
                let ghost old_values = self.value_list();
                let mut entries: Vec<(String, V)> = Vec::new();
                std::mem::swap(&mut entries, &mut self.entries);
                entries.set(i, (k, v));
                assert(entries@.map_values(|e: (String, V)| e.0@) =~= old_keys);
                assert(entries@.map_values(|e: (String, V)| e.1) =~= old_values.update(i as int, v));
                self.entries = entries;
                assert(old_keys.contains(k@));
            },
            Err(i) => {
                let ghost old_keys = self.key_list();
                let ghost old_values = self.value_list();
                let ghost kv = k@;
                let mut entries: Vec<(String, V)> = Vec::new();
                std::mem::swap(&mut entries, &mut self.entries);
                entries.insert(i, (k, v));
                assert(entries@.map_values(|e: (String, V)| e.0@) =~= old_keys.insert(
                    i as int,
                    kv,
                ));
                assert(entries@.map_values(|e: (String, V)| e.1) =~= old_values.insert(
                    i as int,
                    v,
                ));
                proof {
                    let nk = old_keys.insert(i as int, kv);
                    assert forall|a: int, b: int| 0 <= a < b < nk.len() implies seq_lt(
                        #[trigger] nk[a],
                        #[trigger] nk[b],
                    ) by {
                        if b < i {
                            assert(seq_lt(old_keys[a], old_keys[b]));
                        } else if b == i {
                            assert(seq_lt(old_keys[a], kv));
                        } else if a < i {
                            assert(seq_lt(old_keys[a], kv));
                            assert(seq_lt(kv, old_keys[b - 1]));
                            lemma_lt_order(old_keys[a], kv, old_keys[b - 1]);
                        } else if a == i {
                            assert(seq_lt(kv, old_keys[b - 1]));
                        } else {
                            assert(seq_lt(old_keys[a - 1], old_keys[b - 1]));
                        }
                    }
                    assert forall|x: Seq<char>| #[trigger] nk.contains(x) <==> (old_keys.contains(x) || x == kv) by {
                        if nk.contains(x) {
                            let p = choose|p: int| 0 <= p < nk.len() && nk[p] == x;
                            if p < i {
                                assert(old_keys[p] == x);
                            } else if p > i {
                                assert(old_keys[p - 1] == x);
                            }
                        }
                        if old_keys.contains(x) {
                            let p = choose|p: int| 0 <= p < old_keys.len() && old_keys[p] == x;
                            if p < i {
                                assert(nk[p] == x);
                            } else {
                                assert(nk[p + 1] == x);
                            }
                        }
                        if x == kv {
                            assert(nk[i as int] == kv);
                        }
                    }
                }
                self.entries = entries;
            },
        }
    }

    /// Drop the entry under `k`, if there is one.
    pub fn remove(&mut self, k: &str) -> (r: Option<V>)
        ensures
            final(self).inv(),
            r is Some <==> old(self).has(k@),
            r is Some ==> r->0 == old(self).value_of(k@),
            old(self).has(k@) ==> exists|i: int|
                {
                    &&& 0 <= i < old(self).key_list().len()
                    &&& old(self).key_list()[i] == k@
                    &&& final(self).key_list() == old(self).key_list().remove(i)
                    &&& final(self).value_list() == old(self).value_list().remove(i)
                },
            !old(self).has(k@) ==> final(self).key_list() == old(self).key_list()
                && final(self).value_list() == old(self).value_list(),
    {
        proof {
            use_type_invariant(&*self);
        }
        match self.find(k) {
            Ok(i) => {
                let ghost old_keys = self.key_list();
                let ghost old_values = self.value_list();
                proof {
                    self.lemma_index_of(i as int);
                }
                let mut entries: Vec<(String, V)> = Vec::new();
                std::mem::swap(&mut entries, &mut self.entries);
                let (_, gone) = entries.remove(i);
                assert(entries@.map_values(|e: (String, V)| e.0@) =~= old_keys.remove(i as int));
                assert(entries@.map_values(|e: (String, V)| e.1) =~= old_values.remove(i as int));
                proof {
                    let nk = old_keys.remove(i as int);
                    assert forall|a: int, b: int| 0 <= a < b < nk.len() implies seq_lt(
                        #[trigger] nk[a],
                        #[trigger] nk[b],
                    ) by {
                        if b < i {
                            assert(seq_lt(old_keys[a], old_keys[b]));
                        } else if a < i {
                            assert(seq_lt(old_keys[a], old_keys[b + 1]));
                        } else {
                            assert(seq_lt(old_keys[a + 1], old_keys[b + 1]));
                        }
                    }
                }
                self.entries = entries;
                Some(gone)
            },
            Err(_) => None,
        }
    }

    /// Every key, in order.
    pub fn keys(&self) -> (ks: Vec<String>)
        ensures
            ks@.map_values(|s: String| s@) == self.key_list(),
            self.inv(),
    {
        proof {
            use_type_invariant(self);
        }
        let mut ks: Vec<String> = Vec::new();
        let mut i: usize = 0;
        while i < self.entries.len()
            invariant
                i <= self.entries.len(),
                ks@.map_values(|s: String| s@) == self.key_list().take(i as int),
            decreases self.entries.len() - i,
        {
            let c = self.entries[i].0.clone();
            assert(c@ == self.key_list()[i as int]);
            let ghost before = ks@;
            ks.push(c);
            assert(ks@ == before.push(c));
            assert(ks@.map_values(|s: String| s@) =~= before.map_values(|s: String| s@).push(c@));
            assert(self.key_list().take(i + 1) =~= self.key_list().take(i as int).push(c@));
            i = i + 1;
        }
        assert(self.key_list().take(i as int) =~= self.key_list());
        ks
    }

    /// Set the value under `k`, stated as lookups.
    pub fn put(&mut self, k: String, v: V)
        ensures
            final(self).has(k@),
            final(self).value_of(k@) == v,
            forall|x: Seq<char>| x != k@ ==> (#[trigger] final(self).has(x) <==> old(self).has(x)),
            forall|x: Seq<char>| x != k@ && old(self).has(x) ==> #[trigger] final(self).value_of(x)
                == old(self).value_of(x),
            !old(self).has(k@) ==> final(self).key_list().len() == old(self).key_list().len() + 1,
    {
        proof {
            use_type_invariant(&*self);
        }
        let ghost before = *self;
        let ghost kv = k@;
        let ghost vv = v;
        self.insert(k, v);
        proof {
            use_type_invariant(&*self);
            lemma_insert_lookup(before, *self, kv, vv);
        }
    }

    /// Drop the entry under `k`, stated as lookups.
    pub fn take(&mut self, k: &str) -> (r: Option<V>)
        ensures
            r is Some <==> old(self).has(k@),
            r is Some ==> r->0 == old(self).value_of(k@),
            !final(self).has(k@),
            forall|x: Seq<char>| x != k@ ==> (#[trigger] final(self).has(x) <==> old(self).has(x)),
            forall|x: Seq<char>| x != k@ && old(self).has(x) ==> #[trigger] final(self).value_of(x)
                == old(self).value_of(x),
    {
        proof {
            use_type_invariant(&*self);
        }
        let ghost before = *self;
        let r = self.remove(k);
        proof {
            use_type_invariant(&*self);
            lemma_remove_lookup(before, *self, k@);
        }
        r
    }

    /// Add `k` after every existing key.
    pub fn push_last(&mut self, k: String, v: V)
        requires
            forall|j: int| 0 <= j < old(self).key_list().len() ==> seq_lt(#[trigger] old(self).key_list()[j], k@),
        ensures
            final(self).key_list() == old(self).key_list().push(k@),
            final(self).value_list() == old(self).value_list().push(v),
            final(self).inv(),
    {
        proof {
            use_type_invariant(&*self);
        }
        let ghost old_keys = self.key_list();
        let ghost old_values = self.value_list();
        let ghost kv = k@;
        let mut entries: Vec<(String, V)> = Vec::new();
        std::mem::swap(&mut entries, &mut self.entries);
        entries.push((k, v));
        assert(entries@.map_values(|e: (String, V)| e.0@) =~= old_keys.push(kv));
        assert(entries@.map_values(|e: (String, V)| e.1) =~= old_values.push(v));
        proof {
            let nk = old_keys.push(kv);
            assert forall|a: int, b: int| 0 <= a < b < nk.len() implies seq_lt(#[trigger] nk[a], #[trigger] nk[b]) by {
                if b < old_keys.len() {
                    assert(seq_lt(old_keys[a], old_keys[b]));
                } else {
                    assert(seq_lt(old_keys[a], kv));
                }
            }
        }
        self.entries = entries;
    }
}

/// `g` groups the keys by name: under each name, exactly the keys carrying it,
/// in order.
pub open spec fn groups_ok(keys: Seq<Seq<char>>, nms: Seq<Seq<char>>, g: StrMap<Vec<String>>) -> bool {
    &&& forall|n: Seq<char>| #[trigger] g.has(n) ==> strictly_sorted(names(g.value_of(n)@))
    &&& forall|n: Seq<char>, k: Seq<char>| #[trigger] g.has(n) ==> (#[trigger] names(g.value_of(n)@).contains(k)
        <==> exists|i: int| 0 <= i < keys.len() && keys[i] == k && nms[i] == n)
    &&& forall|i: int| 0 <= i < keys.len() ==> g.has(#[trigger] nms[i])
    &&& forall|n: Seq<char>| #[trigger] g.has(n) ==> exists|i: int| 0 <= i < keys.len() && nms[i] == n
}

/// Group sorted keys by the name each carries.
pub fn group_by_name(keys: &Vec<String>, nms: &Vec<String>) -> (g: StrMap<Vec<String>>)
    requires
        keys.len() == nms.len(),
        strictly_sorted(names(keys@)),
    ensures
        groups_ok(names(keys@), names(nms@), g),
        g.inv(),
{
    let ghost ks = names(keys@);
    let ghost ns = names(nms@);
    let mut g: StrMap<Vec<String>> = StrMap::new();
    let n = keys.len();
    let mut j: usize = 0;
    while j < n
        invariant
            ks == names(keys@),
            ns == names(nms@),
            strictly_sorted(ks),
            n == keys.len(),
            n == nms.len(),
            j <= n,
            g.inv(),
            forall|m: Seq<char>| #[trigger] g.has(m) ==> strictly_sorted(names(g.value_of(m)@)),
            forall|m: Seq<char>, k: Seq<char>| #[trigger] g.has(m) ==> (#[trigger] names(g.value_of(m)@).contains(k)
                <==> exists|p: int| 0 <= p < j && ks[p] == k && ns[p] == m),
            forall|p: int| 0 <= p < j ==> g.has(#[trigger] ns[p]),
            forall|m: Seq<char>| #[trigger] g.has(m) ==> exists|p: int| 0 <= p < j && ns[p] == m,
        decreases n - j,
    {
        let ghost m = ns[j as int];
        let ghost before = g;
        assert(nms@[j as int]@ == m);
        let mut list = match g.remove(nms[j].as_str()) {
            Some(list) => list,
            None => Vec::new(),
        };
        let ghost mid = g;
        proof {
            lemma_remove_lookup(before, mid, m);
            if !before.has(m) {
                assert(names(list@) =~= Seq::<Seq<char>>::empty());
            }
        }
        let ghost lbefore = list@;
        list.push(keys[j].clone());
        let ghost lv = list;
        proof {
            assert(names(list@) =~= names(lbefore).push(ks[j as int]));
            crate::text::lemma_push_contains(names(lbefore), ks[j as int]);
            assert forall|a: int, b: int| 0 <= a < b < names(list@).len() implies seq_lt(#[trigger] names(list@)[a], #[trigger] names(list@)[b]) by {
                if b < names(lbefore).len() {
                    assert(names(list@)[a] == names(lbefore)[a]);
                    assert(names(list@)[b] == names(lbefore)[b]);
                } else {
                    assert(names(lbefore).contains(names(lbefore)[a]));
                    if before.has(m) {
                        let p = choose|p: int| 0 <= p < j && ks[p] == names(lbefore)[a] && ns[p] == m;
                        assert(seq_lt(ks[p], ks[j as int]));
                    } else {
                        assert(false);
                    }
                }
            }
        }
        g.insert(nms[j].clone(), list);
        proof {
            lemma_insert_lookup(mid, g, m, lv);
            assert forall|mm: Seq<char>, k: Seq<char>| #[trigger] g.has(mm) implies (#[trigger] names(g.value_of(mm)@).contains(k)
                <==> exists|p: int| 0 <= p < j + 1 && ks[p] == k && ns[p] == mm) by {
                if mm == m {
                    if names(lv@).contains(k) {
                        if k == ks[j as int] {
                            assert(ks[j as int] == k && ns[j as int] == mm);
                        } else {
                            assert(names(lbefore).contains(k));
                            if !before.has(m) {
                                assert(false);
                            }
                        }
                    }
                    if exists|p: int| 0 <= p < j + 1 && ks[p] == k && ns[p] == mm {
                        let p = choose|p: int| 0 <= p < j + 1 && ks[p] == k && ns[p] == mm;
                        if p < j {
                            assert(before.has(ns[p]));
                            assert(names(lbefore).contains(k));
                        }
                    }
                } else {
                    assert(before.has(mm));
                    if exists|p: int| 0 <= p < j + 1 && ks[p] == k && ns[p] == mm {
                        let p = choose|p: int| 0 <= p < j + 1 && ks[p] == k && ns[p] == mm;
                        assert(p != j);
                    }
                }
            }
            assert forall|p: int| 0 <= p < j + 1 implies g.has(#[trigger] ns[p]) by {
                if p < j && ns[p] != m {
                    assert(before.has(ns[p]));
                }
            }
            assert forall|mm: Seq<char>| #[trigger] g.has(mm) implies exists|p: int| 0 <= p < j + 1 && ns[p] == mm by {
                if mm != m {
                    assert(before.has(mm));
                } else {
                    assert(ns[j as int] == mm);
                }
            }
        }
        j = j + 1;
    }
    g
}

/// What `insert` does to lookups, in terms of `has` and `value_of`.
pub proof fn lemma_insert_lookup<V>(before: StrMap<V>, after: StrMap<V>, k: Seq<char>, v: V)
    requires
        before.inv(),
        after.inv(),
        forall|x: Seq<char>| #[trigger] after.key_list().contains(x) <==> (before.key_list().contains(x) || x == k),
        before.has(k) ==> exists|i: int|
            {
                &&& 0 <= i < before.key_list().len()
                &&& before.key_list()[i] == k
                &&& after.key_list() == before.key_list()
                &&& after.value_list() == before.value_list().update(i, v)
            },
        !before.has(k) ==> exists|i: int|
            {
                &&& 0 <= i <= before.key_list().len()
                &&& after.key_list() == before.key_list().insert(i, k)
                &&& after.value_list() == before.value_list().insert(i, v)
            },
    ensures
        after.has(k),
        after.value_of(k) == v,
        forall|x: Seq<char>| x != k ==> (#[trigger] after.has(x) <==> before.has(x)),
        forall|x: Seq<char>| x != k && before.has(x) ==> #[trigger] after.value_of(x) == before.value_of(x),
{
    if before.has(k) {
        let i = choose|i: int|
            {
                &&& 0 <= i < before.key_list().len()
                &&& before.key_list()[i] == k
                &&& after.key_list() == before.key_list()
                &&& after.value_list() == before.value_list().update(i, v)
            };
        after.lemma_index_of(i);
        assert forall|x: Seq<char>| x != k && before.has(x) implies #[trigger] after.value_of(x) == before.value_of(x) by {
            let j = choose|j: int| 0 <= j < before.key_list().len() && before.key_list()[j] == x;
            before.lemma_index_of(j);
            after.lemma_index_of(j);
        }
    } else {
        let i = choose|i: int|
            {
                &&& 0 <= i <= before.key_list().len()
                &&& after.key_list() == before.key_list().insert(i, k)
                &&& after.value_list() == before.value_list().insert(i, v)
            };
        after.lemma_index_of(i);
        assert forall|x: Seq<char>| x != k && before.has(x) implies #[trigger] after.value_of(x) == before.value_of(x) by {
            let j = choose|j: int| 0 <= j < before.key_list().len() && before.key_list()[j] == x;
            before.lemma_index_of(j);
            if j < i {
                after.lemma_index_of(j);
            } else {
                after.lemma_index_of(j + 1);
            }
        }
    }
}

/// What `remove` does to lookups, in terms of `has` and `value_of`.
pub proof fn lemma_remove_lookup<V>(before: StrMap<V>, after: StrMap<V>, k: Seq<char>)
    requires
        before.inv(),
        after.inv(),
        before.has(k) ==> exists|i: int|
            {
                &&& 0 <= i < before.key_list().len()
                &&& before.key_list()[i] == k
                &&& after.key_list() == before.key_list().remove(i)
                &&& after.value_list() == before.value_list().remove(i)
            },
        !before.has(k) ==> after.key_list() == before.key_list() && after.value_list() == before.value_list(),
    ensures
        !after.has(k),
        forall|x: Seq<char>| x != k ==> (#[trigger] after.has(x) <==> before.has(x)),
        forall|x: Seq<char>| x != k && before.has(x) ==> #[trigger] after.value_of(x) == before.value_of(x),
{
    if before.has(k) {
        let i = choose|i: int|
            {
                &&& 0 <= i < before.key_list().len()
                &&& before.key_list()[i] == k
                &&& after.key_list() == before.key_list().remove(i)
                &&& after.value_list() == before.value_list().remove(i)
            };
        assert forall|x: Seq<char>| x != k implies (#[trigger] after.has(x) <==> before.has(x)) by {
            if after.has(x) {
                let j = choose|j: int| 0 <= j < after.key_list().len() && after.key_list()[j] == x;
                if j < i {
                    assert(before.key_list()[j] == x);
                } else {
                    assert(before.key_list()[j + 1] == x);
                }
            }
            if before.has(x) {
                let j = choose|j: int| 0 <= j < before.key_list().len() && before.key_list()[j] == x;
                if j < i {
                    assert(after.key_list()[j] == x);
                } else if j > i {
                    assert(after.key_list()[j - 1] == x);
                }
            }
        }
        assert forall|x: Seq<char>| x != k && before.has(x) implies #[trigger] after.value_of(x) == before.value_of(x) by {
            let j = choose|j: int| 0 <= j < before.key_list().len() && before.key_list()[j] == x;
            before.lemma_index_of(j);
            if j < i {
                after.lemma_index_of(j);
            } else {
                after.lemma_index_of(j - 1);
            }
        }
        if after.has(k) {
            let j = choose|j: int| 0 <= j < after.key_list().len() && after.key_list()[j] == k;
            before.lemma_index_of(i);
            if j < i {
                assert(before.key_list()[j] == k);
                before.lemma_index_of(j);
            } else {
                assert(before.key_list()[j + 1] == k);
                before.lemma_index_of(j + 1);
            }
        }
    }
}

} // verus!
