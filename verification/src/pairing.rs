//! Pairing up the two sides of a comparison: what appeared, what vanished,
//! and which vanished thing reappeared elsewhere unchanged.

use vstd::prelude::*;

use crate::sitrep::{names, same_names};
use crate::strmap::{group_by_name, groups_ok, StrMap};
use crate::text::{lemma_lt_irreflexive, lemma_push_contains, seq_lt, strictly_sorted};

verus! {

/// A thing that can move between the snapshots: it is paired up by a name,
/// and counts as moved only while its shape holds still.
pub trait Traced {
    /// The name moves are matched by.
    spec fn label(&self) -> Seq<char>;

    /// What must be the same on both sides of a move.
    spec fn shape(&self) -> Seq<Seq<char>>;

    fn label_str(&self) -> (r: &String)
        ensures
            r@ == self.label(),
    ;

    fn shape_list(&self) -> (r: &Vec<String>)
        ensures
            names(r@) == self.shape(),
    ;
}

/// A key of the current side with no baseline counterpart.
pub open spec fn fresh<V: Traced>(b: StrMap<V>, c: StrMap<V>, k: Seq<char>) -> bool {
    c.has(k) && !b.has(k)
}

/// A key of the baseline that the current side lacks.
pub open spec fn gone<V: Traced>(b: StrMap<V>, c: StrMap<V>, k: Seq<char>) -> bool {
    b.has(k) && !c.has(k)
}

/// `a` is where `o` moved to: the only key of its name that appeared, the
/// only key of that name that vanished, with the same shape on both sides.
pub open spec fn moves<V: Traced>(b: StrMap<V>, c: StrMap<V>, a: Seq<char>, o: Seq<char>) -> bool {
    let n = c.value_of(a).label();
    &&& fresh(b, c, a)
    &&& gone(b, c, o)
    &&& b.value_of(o).label() == n
    &&& forall|x: Seq<char>| #[trigger] fresh(b, c, x) && c.value_of(x).label() == n ==> x == a
    &&& forall|x: Seq<char>| #[trigger] gone(b, c, x) && b.value_of(x).label() == n ==> x == o
    &&& b.value_of(o).shape() == c.value_of(a).shape()
}

/// A move is only read where it is unambiguous: when two new keys carry the
/// same name, or two vanished ones do, neither pairing is a move, and a key
/// whose shape changed on the way did not move either.
pub proof fn law_ambiguous_moves_are_not_relocations<V: Traced>(
    b: StrMap<V>,
    c: StrMap<V>,
    a: Seq<char>,
    o: Seq<char>,
    other: Seq<char>,
)
    ensures
        fresh(b, c, other) && other != a && c.value_of(other).label() == c.value_of(a).label() ==> !moves(b, c, a, o),
        gone(b, c, other) && other != o && b.value_of(other).label() == c.value_of(a).label() ==> !moves(b, c, a, o),
        b.value_of(o).shape() != c.value_of(a).shape() ==> !moves(b, c, a, o),
{
}

/// `a` arrived by a move.
pub open spec fn moved_in<V: Traced>(b: StrMap<V>, c: StrMap<V>, a: Seq<char>) -> bool {
    exists|o: Seq<char>| #[trigger] moves(b, c, a, o)
}

/// `o` left by a move, so it is not reported as burned.
pub open spec fn retired<V: Traced>(b: StrMap<V>, c: StrMap<V>, o: Seq<char>) -> bool {
    exists|a: Seq<char>| #[trigger] moves(b, c, a, o)
}

/// Where a moved key came from.
pub open spec fn origin<V: Traced>(b: StrMap<V>, c: StrMap<V>, a: Seq<char>) -> Seq<char> {
    choose|o: Seq<char>| moves(b, c, a, o)
}

/// The keys a view reports: everything current, and what vanished without
/// moving.
pub open spec fn listed<V: Traced>(b: StrMap<V>, c: StrMap<V>, k: Seq<char>) -> bool {
    c.has(k) || (gone(b, c, k) && !retired(b, c, k))
}

/// The keys of `src` that `other` lacks, in order, with the name each is paired by.
pub fn only_in<V: Traced>(src: &StrMap<V>, other: &StrMap<V>) -> (r: (Vec<String>, Vec<String>))
    ensures
        r.0.len() == r.1.len(),
        strictly_sorted(names(r.0@)),
        forall|x: Seq<char>| #[trigger] names(r.0@).contains(x) <==> (src.has(x) && !other.has(x)),
        forall|p: int| 0 <= p < r.0.len() ==> names(r.1@)[p] == src.value_of(#[trigger] names(r.0@)[p]).label(),
{
    let mut ks: Vec<String> = Vec::new();
    let mut ns: Vec<String> = Vec::new();
    let n = src.len();
    let mut i: usize = 0;
    while i < n
        invariant
            n == src.key_list().len(),
            src.inv(),
            i <= n,
            ks.len() == ns.len(),
            forall|p: int, q: int| 0 <= p < q < names(ks@).len() ==> seq_lt(#[trigger] names(ks@)[p], #[trigger] names(ks@)[q]),
            forall|p: int| 0 <= p < names(ks@).len() ==> exists|q: int| 0 <= q < i && src.key_list()[q] == #[trigger] names(ks@)[p],
            forall|x: Seq<char>| #[trigger] names(ks@).contains(x) <==> (src.key_list().take(i as int).contains(x) && !other.has(x)),
            forall|p: int| 0 <= p < ks.len() ==> names(ns@)[p] == src.value_of(#[trigger] names(ks@)[p]).label(),
        decreases n - i,
    {
        let k = src.key_at(i);
        let s = src.value_at(i);
        proof {
            src.lemma_index_of(i as int);
            lemma_push_contains(src.key_list().take(i as int), k@);
            assert(src.key_list().take(i + 1) =~= src.key_list().take(i as int).push(k@));
        }
        let ghost before = names(ks@);
        if !other.contains_key(k.as_str()) {
            ks.push(k.clone());
            ns.push(s.label_str().clone());
            proof {
                assert(names(ks@) =~= before.push(k@));
                lemma_push_contains(before, k@);
                assert forall|p: int, q: int| 0 <= p < q < names(ks@).len() implies seq_lt(#[trigger] names(ks@)[p], #[trigger] names(ks@)[q]) by {
                    if q == before.len() {
                        let w = choose|w: int| 0 <= w < i && src.key_list()[w] == before[p];
                        assert(seq_lt(src.key_list()[w], src.key_list()[i as int]));
                    }
                }
                assert forall|p: int| 0 <= p < names(ks@).len() implies exists|q: int| 0 <= q < i + 1 && src.key_list()[q] == #[trigger] names(ks@)[p] by {
                    if p < before.len() {
                        assert(names(ks@)[p] == before[p]);
                    } else {
                        assert(src.key_list()[i as int] == names(ks@)[p]);
                    }
                }
                assert forall|p: int| 0 <= p < ks.len() implies names(ns@)[p] == src.value_of(#[trigger] names(ks@)[p]).label() by {
                    if p < before.len() {
                        assert(names(ks@)[p] == before[p]);
                    }
                }
            }
        }
        i = i + 1;
    }
    assert(src.key_list().take(n as int) =~= src.key_list());
    (ks, ns)
}

/// A strictly sorted list holding one value throughout is that value alone.
pub proof fn lemma_single(s: Seq<Seq<char>>, a: Seq<char>)
    requires
        strictly_sorted(s),
        s.contains(a),
        forall|i: int| 0 <= i < s.len() ==> #[trigger] s[i] == a,
    ensures
        s.len() == 1,
        s[0] == a,
{
    if s.len() > 1 {
        assert(seq_lt(s[0], s[1]));
        lemma_lt_irreflexive(a);
    }
}

/// The moves between the two sides: every pair `(a, o)` with `moves(a, o)`.
pub fn find_moves<V: Traced>(b: &StrMap<V>, c: &StrMap<V>) -> (pairs: Vec<(String, String)>)
    ensures
        forall|p: int| 0 <= p < pairs.len() ==> moves(*b, *c, #[trigger] pairs@[p].0@, pairs@[p].1@),
        forall|a: Seq<char>, o: Seq<char>| #[trigger] moves(*b, *c, a, o) ==> exists|p: int|
            0 <= p < pairs.len() && #[trigger] pairs@[p].0@ == a && pairs@[p].1@ == o,
{
    let (ak, an) = only_in(c, b);
    let (bk, bn) = only_in(b, c);
    let ga = group_by_name(&ak, &an);
    let gb = group_by_name(&bk, &bn);
    let ghost aks = names(ak@);
    let ghost ans = names(an@);
    let ghost bks = names(bk@);
    let ghost bns = names(bn@);
    let mut pairs: Vec<(String, String)> = Vec::new();
    let n = ga.len();
    let mut j: usize = 0;
    while j < n
        invariant
            n == ga.key_list().len(),
            ga.inv(),
            gb.inv(),
            j <= n,
            aks == names(ak@),
            ans == names(an@),
            bks == names(bk@),
            bns == names(bn@),
            groups_ok(aks, ans, ga),
            groups_ok(bks, bns, gb),
            ak.len() == an.len(),
            bk.len() == bn.len(),
            forall|x: Seq<char>| #[trigger] aks.contains(x) <==> (c.has(x) && !b.has(x)),
            forall|p: int| 0 <= p < ak.len() ==> ans[p] == c.value_of(#[trigger] aks[p]).label(),
            forall|x: Seq<char>| #[trigger] bks.contains(x) <==> (b.has(x) && !c.has(x)),
            forall|p: int| 0 <= p < bk.len() ==> bns[p] == b.value_of(#[trigger] bks[p]).label(),
            forall|p: int| 0 <= p < pairs.len() ==> moves(*b, *c, #[trigger] pairs@[p].0@, pairs@[p].1@),
            forall|a: Seq<char>, o: Seq<char>| #[trigger] moves(*b, *c, a, o) && (exists|q: int|
                0 <= q < j && ga.key_list()[q] == c.value_of(a).label()) ==> exists|p: int|
                0 <= p < pairs.len() && #[trigger] pairs@[p].0@ == a && pairs@[p].1@ == o,
        decreases n - j,
    {
        let name = ga.key_at(j);
        let list = ga.value_at(j);
        let ghost nm = name@;
        let ghost before = pairs@;
        proof {
            ga.lemma_index_of(j as int);
            assert(ga.has(nm));
        }
        if list.len() == 1 {
            if let Some(blist) = gb.get(name.as_str()) {
                if blist.len() == 1 {
                    let a = &list[0];
                    let o = &blist[0];
                    proof {
                        assert(names(list@).contains(a@)) by {
                            assert(names(list@)[0] == a@);
                        }
                        assert(names(blist@).contains(o@)) by {
                            assert(names(blist@)[0] == o@);
                        }
                    }
                    match (b.get(o.as_str()), c.get(a.as_str())) {
                        (Some(olds), Some(news)) => {
                            if same_names(olds.shape_list(), news.shape_list()) {
                                proof {
                                    let pa = choose|p: int| 0 <= p < aks.len() && aks[p] == a@ && ans[p] == nm;
                                    let pb = choose|p: int| 0 <= p < bks.len() && bks[p] == o@ && bns[p] == nm;
                                    assert(aks.contains(aks[pa]));
                                    assert(bks.contains(bks[pb]));
                                    assert forall|x: Seq<char>| #[trigger] fresh(*b, *c, x) && c.value_of(x).label() == nm implies x == a@ by {
                                        assert(aks.contains(x));
                                        let px = choose|px: int| 0 <= px < aks.len() && aks[px] == x;
                                        assert(ans[px] == nm);
                                        assert(names(list@).contains(x));
                                        let w = choose|w: int| 0 <= w < names(list@).len() && names(list@)[w] == x;
                                        assert(w == 0);
                                    }
                                    assert forall|x: Seq<char>| #[trigger] gone(*b, *c, x) && b.value_of(x).label() == nm implies x == o@ by {
                                        assert(bks.contains(x));
                                        let px = choose|px: int| 0 <= px < bks.len() && bks[px] == x;
                                        assert(bns[px] == nm);
                                        assert(names(blist@).contains(x));
                                        let w = choose|w: int| 0 <= w < names(blist@).len() && names(blist@)[w] == x;
                                        assert(w == 0);
                                    }
                                    assert(moves(*b, *c, a@, o@));
                                }
                                pairs.push((a.clone(), o.clone()));
                            }
                        },
                        _ => {},
                    }
                }
            }
        }
        assert(pairs@.len() >= before.len());
        assert(forall|i: int| 0 <= i < before.len() ==> pairs@[i] == before[i]);
        proof {
            assert forall|a: Seq<char>, o: Seq<char>| #[trigger] moves(*b, *c, a, o) && (exists|q: int|
                0 <= q < j + 1 && ga.key_list()[q] == c.value_of(a).label()) implies exists|p: int|
                0 <= p < pairs.len() && #[trigger] pairs@[p].0@ == a && pairs@[p].1@ == o by {
                let q = choose|q: int| 0 <= q < j + 1 && ga.key_list()[q] == c.value_of(a).label();
                if q < j {
                    let p = choose|p: int| 0 <= p < before.len() && #[trigger] before[p].0@ == a && before[p].1@ == o;
                    assert(pairs@[p] == before[p]);
                } else {
                    // `a` is the sole fresh one named `nm`, `o` the sole gone one.
                    assert(aks.contains(a));
                    let pa = choose|p: int| 0 <= p < aks.len() && aks[p] == a;
                    assert(ans[pa] == nm);
                    assert(names(list@).contains(a));
                    assert forall|i: int| 0 <= i < names(list@).len() implies #[trigger] names(list@)[i] == a by {
                        let x = names(list@)[i];
                        assert(names(list@).contains(x));
                        let px = choose|px: int| 0 <= px < aks.len() && aks[px] == x && ans[px] == nm;
                        assert(aks.contains(x));
                        assert(fresh(*b, *c, x));
                    }
                    lemma_single(names(list@), a);
                    assert(bks.contains(o));
                    let pb = choose|p: int| 0 <= p < bks.len() && bks[p] == o;
                    assert(bns[pb] == nm);
                    assert(gb.has(bns[pb]));
                    let bl = gb.value_of(nm);
                    assert(names(bl@).contains(o));
                    assert forall|i: int| 0 <= i < names(bl@).len() implies #[trigger] names(bl@)[i] == o by {
                        let x = names(bl@)[i];
                        assert(names(bl@).contains(x));
                        let px = choose|px: int| 0 <= px < bks.len() && bks[px] == x && bns[px] == nm;
                        assert(bks.contains(x));
                        assert(gone(*b, *c, x));
                    }
                    lemma_single(names(bl@), o);
                    let w = pairs@.len() - 1;
                    assert(pairs@[w].0@ == a && pairs@[w].1@ == o);
                }
            }
        }
        j = j + 1;
    }
    proof {
        assert forall|a: Seq<char>, o: Seq<char>| #[trigger] moves(*b, *c, a, o) implies exists|p: int|
            0 <= p < pairs.len() && #[trigger] pairs@[p].0@ == a && pairs@[p].1@ == o by {
            assert(aks.contains(a));
            let pa = choose|p: int| 0 <= p < aks.len() && aks[p] == a;
            assert(ga.has(ans[pa]));
            let q = choose|q: int| 0 <= q < ga.key_list().len() && ga.key_list()[q] == ans[pa];
            assert(ga.key_list()[q] == c.value_of(a).label());
        }
    }
    pairs
}

/// A move names its origin, and marks both ends.
pub proof fn lemma_origin<V: Traced>(b: StrMap<V>, c: StrMap<V>, a: Seq<char>, o: Seq<char>)
    requires
        moves(b, c, a, o),
    ensures
        origin(b, c, a) == o,
        moved_in(b, c, a),
        retired(b, c, o),
{
    let w = origin(b, c, a);
    assert(moves(b, c, a, w));
    assert(gone(b, c, w) && b.value_of(w).label() == c.value_of(a).label());
}


impl Traced for crate::dossier::Subject {
    open spec fn label(&self) -> Seq<char> {
        self.name@
    }

    open spec fn shape(&self) -> Seq<Seq<char>> {
        names(self.bases@)
    }

    fn label_str(&self) -> (r: &String) {
        &self.name
    }

    fn shape_list(&self) -> (r: &Vec<String>) {
        &self.bases
    }
}

impl Traced for crate::dossier::Operation {
    open spec fn label(&self) -> Seq<char> {
        self.name@
    }

    /// The calls as written: resolved targets shift when a callee moves too,
    /// but the source text does not.
    open spec fn shape(&self) -> Seq<Seq<char>> {
        names(self.raw_calls@)
    }

    fn label_str(&self) -> (r: &String) {
        &self.name
    }

    fn shape_list(&self) -> (r: &Vec<String>) {
        &self.raw_calls
    }
}

} // verus!
