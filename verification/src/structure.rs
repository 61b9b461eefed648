//! The structure view: baseline against current, reduced to a single class
//! inheritance forest with per-class status.

use vstd::prelude::*;

use crate::dossier::{
    copy_names, copy_opt, opt_view, resolved_bases, spec_resolve, spec_strip_module, Dossier, Subject,
    SubjectView,
};
use crate::sitrep::{
    delta, insert_pair, is_sorted_difference, names, node_id, pair_lt, pair_views, pairs_sorted, same_names,
    Counts, Edge, NodeKey, Status, TreeNode, Row, row_view, rows_of_roots, flatten, law_delta_accounts_for_the_change,
    feed_by_name, feed_positions, is_feed, item_views, lemma_is_feed, positions,
};
use crate::pairing::{find_moves, gone, lemma_origin, listed, moved_in, moves, origin, retired};
use crate::strmap::StrMap;
use crate::text::{lemma_lt_irreflexive, lemma_push_contains, lemma_sorted_len_bound, seq_lt, spec_leaf};

verus! {

#[derive(Debug)]
pub struct Entry {
    /// Current-side subject, or the baseline-side one if the class is gone.
    pub subject: Subject,
    pub status: Status,
    /// Base classes at baseline, for a class present on both sides.
    pub prior_bases: Vec<String>,
    /// Module the class was in before it moved.
    pub prior_module: Option<String>,
    /// Methods added / removed since baseline.
    pub gained: Vec<String>,
    pub lost: Vec<String>,
    /// Bases beyond the one used to place the class in the forest.
    pub mixins: Vec<String>,
}

/// What an `Entry` says, as mathematical values.
pub struct EntryView {
    pub subject: SubjectView,
    pub status: Status,
    pub prior_bases: Seq<Seq<char>>,
    pub prior_module: Option<Seq<char>>,
    pub gained: Seq<Seq<char>>,
    pub lost: Seq<Seq<char>>,
    pub mixins: Seq<Seq<char>>,
}

impl View for Entry {
    type V = EntryView;

    open spec fn view(&self) -> EntryView {
        EntryView {
            subject: self.subject@,
            status: self.status,
            prior_bases: names(self.prior_bases@),
            prior_module: opt_view(self.prior_module),
            gained: names(self.gained@),
            lost: names(self.lost@),
            mixins: names(self.mixins@),
        }
    }
}

impl Clone for Entry {
    fn clone(&self) -> (r: Self)
        ensures
            r@ == self@,
    {
        Entry {
            subject: self.subject.clone(),
            status: self.status,
            prior_bases: copy_names(&self.prior_bases),
            prior_module: copy_opt(&self.prior_module),
            gained: copy_names(&self.gained),
            lost: copy_names(&self.lost),
            mixins: copy_names(&self.mixins),
        }
    }
}

// ------------------------------------------------------------ what changed --

/// The entry for `k`, given whether a class new on the current side counts
/// as having moved in.
pub open spec fn side_ok(
    b: StrMap<Subject>,
    c: StrMap<Subject>,
    k: Seq<char>,
    e: EntryView,
    relocated: bool,
) -> bool {
    if c.has(k) && b.has(k) {
        let then = b.value_of(k)@;
        let now = c.value_of(k)@;
        &&& e.subject == now
        &&& e.prior_bases == then.bases
        &&& e.prior_module is None
        &&& is_sorted_difference(e.gained, now.methods, then.methods)
        &&& is_sorted_difference(e.lost, then.methods, now.methods)
        &&& e.status == (if then.bases != now.bases {
            Status::Realigned
        } else if e.gained.len() > 0 || e.lost.len() > 0 {
            Status::Amended
        } else {
            Status::Nominal
        })
    } else if c.has(k) {
        let now = c.value_of(k)@;
        &&& e.subject == now
        &&& e.prior_bases.len() == 0
        &&& (if relocated {
            let then = b.value_of(origin(b, c, k))@;
            &&& e.status == Status::Relocated
            &&& e.prior_module == Some(then.module)
            &&& is_sorted_difference(e.gained, now.methods, then.methods)
            &&& is_sorted_difference(e.lost, then.methods, now.methods)
        } else {
            &&& e.status == Status::Activated
            &&& e.prior_module is None
            &&& e.gained.len() == 0
            &&& e.lost.len() == 0
        })
    } else {
        &&& e.subject == b.value_of(k)@
        &&& e.status == Status::Burned
        &&& e.prior_bases.len() == 0
        &&& e.prior_module is None
        &&& e.gained.len() == 0
        &&& e.lost.len() == 0
    }
}

/// The entry for `k` says what happened to that class between the snapshots.
pub open spec fn entry_ok(b: StrMap<Subject>, c: StrMap<Subject>, k: Seq<char>, e: EntryView) -> bool {
    side_ok(b, c, k, e, moved_in(b, c, k))
}

/// A class whose bases and methods are the same on both sides is reported
/// nominal, with nothing gained or lost.
pub proof fn law_unchanged_class_is_nominal(b: StrMap<Subject>, c: StrMap<Subject>, k: Seq<char>, e: EntryView)
    requires
        b.has(k),
        c.has(k),
        b.value_of(k)@.bases == c.value_of(k)@.bases,
        b.value_of(k)@.methods == c.value_of(k)@.methods,
        entry_ok(b, c, k, e),
    ensures
        e.status == Status::Nominal,
        e.gained.len() == 0,
        e.lost.len() == 0,
{
    let m = c.value_of(k)@.methods;
    law_delta_accounts_for_the_change(m, m, e.gained, e.lost);
}

/// Compared with itself, a snapshot reports every class it holds, each one
/// nominal: nothing is activated, burned or moved.
pub proof fn law_nothing_changes_against_itself(b: StrMap<Subject>, k: Seq<char>, e: EntryView)
    requires
        listed(b, b, k),
        entry_ok(b, b, k, e),
    ensures
        b.has(k),
        e.status == Status::Nominal,
{
    law_unchanged_class_is_nominal(b, b, k, e);
}

/// An entry for a class on both sides.
fn compare(then: &Subject, now: &Subject) -> (e: Entry)
    ensures
        e.subject@ == now@,
        e@.prior_bases == then@.bases,
        e.prior_module is None,
        is_sorted_difference(e@.gained, now@.methods, then@.methods),
        is_sorted_difference(e@.lost, then@.methods, now@.methods),
        e.status == (if then@.bases != now@.bases {
            Status::Realigned
        } else if e@.gained.len() > 0 || e@.lost.len() > 0 {
            Status::Amended
        } else {
            Status::Nominal
        }),
        e@.mixins.len() == 0,
{
    let (gained, lost) = delta(&then.methods, &now.methods);
    let status = if !same_names(&then.bases, &now.bases) {
        Status::Realigned
    } else if gained.len() > 0 || lost.len() > 0 {
        Status::Amended
    } else {
        Status::Nominal
    };
    Entry {
        subject: now.clone(),
        status,
        prior_bases: copy_names(&then.bases),
        prior_module: None,
        gained,
        lost,
        mixins: Vec::new(),
    }
}

/// An entry for a class found on one side only.
fn alone(s: &Subject, status: Status) -> (e: Entry)
    ensures
        e.subject@ == s@,
        e.status == status,
        e@.prior_bases.len() == 0,
        e.prior_module is None,
        e@.gained.len() == 0,
        e@.lost.len() == 0,
        e@.mixins.len() == 0,
{
    let e = Entry {
        subject: s.clone(),
        status,
        prior_bases: Vec::new(),
        prior_module: None,
        gained: Vec::new(),
        lost: Vec::new(),
        mixins: Vec::new(),
    };
    assert(e@.prior_bases =~= Seq::<Seq<char>>::empty());
    assert(e@.gained =~= Seq::<Seq<char>>::empty());
    assert(e@.lost =~= Seq::<Seq<char>>::empty());
    assert(e@.mixins =~= Seq::<Seq<char>>::empty());
    e
}

/// One entry per class on either side, before moves are paired up.
fn first_pass(b: &StrMap<Subject>, c: &StrMap<Subject>) -> (entries: StrMap<Entry>)
    ensures
        forall|x: Seq<char>| #[trigger] entries.has(x) <==> (c.has(x) || gone(*b, *c, x)),
        forall|x: Seq<char>| #[trigger] entries.has(x) ==> side_ok(*b, *c, x, entries.value_of(x)@, false),
        forall|x: Seq<char>| #[trigger] entries.has(x) ==> entries.value_of(x)@.mixins.len() == 0,
{
    let mut entries: StrMap<Entry> = StrMap::new();
    let n = c.len();
    let mut i: usize = 0;
    while i < n
        invariant
            n == c.key_list().len(),
            i <= n,
            forall|x: Seq<char>| #[trigger] entries.has(x) <==> c.key_list().take(i as int).contains(x),
            forall|x: Seq<char>| #[trigger] entries.has(x) ==> side_ok(*b, *c, x, entries.value_of(x)@, false),
            forall|x: Seq<char>| #[trigger] entries.has(x) ==> entries.value_of(x)@.mixins.len() == 0,
        decreases n - i,
    {
        let k = c.key_at(i);
        let now = c.value_at(i);
        proof {
            c.lemma_index_of(i as int);
            lemma_push_contains(c.key_list().take(i as int), k@);
            assert(c.key_list().take(i + 1) =~= c.key_list().take(i as int).push(k@));
        }
        let e = match b.get(k.as_str()) {
            Some(then) => compare(then, now),
            None => alone(now, Status::Activated),
        };
        entries.put(k.clone(), e);
        i = i + 1;
    }
    assert(c.key_list().take(n as int) =~= c.key_list());
    let m = b.len();
    let mut j: usize = 0;
    while j < m
        invariant
            n == c.key_list().len(),
            m == b.key_list().len(),
            j <= m,
            forall|x: Seq<char>| #[trigger] entries.has(x) <==> (c.has(x) || (gone(*b, *c, x)
                && b.key_list().take(j as int).contains(x))),
            forall|x: Seq<char>| #[trigger] entries.has(x) ==> side_ok(*b, *c, x, entries.value_of(x)@, false),
            forall|x: Seq<char>| #[trigger] entries.has(x) ==> entries.value_of(x)@.mixins.len() == 0,
        decreases m - j,
    {
        let k = b.key_at(j);
        let then = b.value_at(j);
        proof {
            b.lemma_index_of(j as int);
            lemma_push_contains(b.key_list().take(j as int), k@);
            assert(b.key_list().take(j + 1) =~= b.key_list().take(j as int).push(k@));
        }
        if !c.contains_key(k.as_str()) {
            let e = alone(then, Status::Burned);
            entries.put(k.clone(), e);
        }
        j = j + 1;
    }
    assert(b.key_list().take(m as int) =~= b.key_list());
    entries
}

/// A class that vanished from one module and appeared in another, unchanged,
/// has moved rather than been rewritten: fold each such pair into a single
/// relocated entry.
fn pair_relocations(b: &StrMap<Subject>, c: &StrMap<Subject>, entries: &mut StrMap<Entry>)
    requires
        forall|x: Seq<char>| #[trigger] old(entries).has(x) <==> (c.has(x) || gone(*b, *c, x)),
        forall|x: Seq<char>| #[trigger] old(entries).has(x) ==> side_ok(*b, *c, x, old(entries).value_of(x)@, false),
        forall|x: Seq<char>| #[trigger] old(entries).has(x) ==> old(entries).value_of(x)@.mixins.len() == 0,
    ensures
        forall|x: Seq<char>| #[trigger] final(entries).has(x) <==> listed(*b, *c, x),
        forall|x: Seq<char>| #[trigger] final(entries).has(x) ==> entry_ok(*b, *c, x, final(entries).value_of(x)@),
        forall|x: Seq<char>| #[trigger] final(entries).has(x) ==> final(entries).value_of(x)@.mixins.len() == 0,
{
    let pairs = find_moves(b, c);
    let mut i: usize = 0;
    while i < pairs.len()
        invariant
            i <= pairs.len(),
            forall|p: int| 0 <= p < pairs.len() ==> moves(*b, *c, #[trigger] pairs@[p].0@, pairs@[p].1@),
            forall|a: Seq<char>, o: Seq<char>| #[trigger] moves(*b, *c, a, o) ==> exists|p: int|
                0 <= p < pairs.len() && #[trigger] pairs@[p].0@ == a && pairs@[p].1@ == o,
            forall|x: Seq<char>| #[trigger] entries.has(x) <==> ((c.has(x) || gone(*b, *c, x)) && !(exists|p: int|
                0 <= p < i && #[trigger] pairs@[p].1@ == x)),
            forall|x: Seq<char>| #[trigger] entries.has(x) ==> side_ok(*b, *c, x, entries.value_of(x)@, exists|p: int|
                0 <= p < i && #[trigger] pairs@[p].0@ == x),
            forall|x: Seq<char>| #[trigger] entries.has(x) ==> entries.value_of(x)@.mixins.len() == 0,
        decreases pairs.len() - i,
    {
        let a = &pairs[i].0;
        let o = &pairs[i].1;
        let ghost av = a@;
        let ghost ov = o@;
        proof {
            assert(moves(*b, *c, pairs@[i as int].0@, pairs@[i as int].1@));
            lemma_origin(*b, *c, av, ov);
        }
        let ghost mid = *entries;
        match (b.get(o.as_str()), c.get(a.as_str())) {
            (Some(olds), Some(news)) => {
                let (gained, lost) = delta(&olds.methods, &news.methods);
                let e = Entry {
                    subject: news.clone(),
                    status: Status::Relocated,
                    prior_bases: Vec::new(),
                    prior_module: Some(olds.module.clone()),
                    gained,
                    lost,
                    mixins: Vec::new(),
                };
                assert(e@.prior_bases =~= Seq::<Seq<char>>::empty());
                assert(e@.mixins =~= Seq::<Seq<char>>::empty());
                entries.put(a.clone(), e);
                entries.take(o.as_str());
            },
            _ => {},
        }
        proof {
            assert forall|x: Seq<char>| #[trigger] entries.has(x) <==> ((c.has(x) || gone(*b, *c, x)) && !(exists|p: int|
                0 <= p < i + 1 && #[trigger] pairs@[p].1@ == x)) by {
                if x == ov {
                    assert(pairs@[i as int].1@ == x);
                } else {
                    assert(mid.has(av)) by {
                        if exists|p: int| 0 <= p < i && #[trigger] pairs@[p].1@ == av {
                            let p = choose|p: int| 0 <= p < i && #[trigger] pairs@[p].1@ == av;
                            assert(moves(*b, *c, pairs@[p].0@, pairs@[p].1@));
                        }
                    }
                    assert(entries.has(x) == mid.has(x));
                    if exists|p: int| 0 <= p < i + 1 && #[trigger] pairs@[p].1@ == x {
                        let p = choose|p: int| 0 <= p < i + 1 && #[trigger] pairs@[p].1@ == x;
                        assert(p != i);
                    }
                }
            }
            assert forall|x: Seq<char>| #[trigger] entries.has(x) implies side_ok(*b, *c, x, entries.value_of(x)@, exists|p: int|
                0 <= p < i + 1 && #[trigger] pairs@[p].0@ == x) by {
                if x == av {
                    assert(pairs@[i as int].0@ == x);
                } else {
                    assert(mid.has(x));
                    if exists|p: int| 0 <= p < i + 1 && #[trigger] pairs@[p].0@ == x {
                        let p = choose|p: int| 0 <= p < i + 1 && #[trigger] pairs@[p].0@ == x;
                        assert(p != i);
                    }
                }
            }
        }
        i = i + 1;
    }
    proof {
        assert forall|x: Seq<char>| #[trigger] entries.has(x) <==> listed(*b, *c, x) by {
            if retired(*b, *c, x) {
                let a = choose|a: Seq<char>| #[trigger] moves(*b, *c, a, x);
                let p = choose|p: int| 0 <= p < pairs.len() && #[trigger] pairs@[p].0@ == a && pairs@[p].1@ == x;
                assert(pairs@[p].1@ == x);
            }
            if exists|p: int| 0 <= p < pairs.len() && #[trigger] pairs@[p].1@ == x {
                let p = choose|p: int| 0 <= p < pairs.len() && #[trigger] pairs@[p].1@ == x;
                assert(moves(*b, *c, pairs@[p].0@, x));
            }
        }
        assert forall|x: Seq<char>| #[trigger] entries.has(x) implies entry_ok(*b, *c, x, entries.value_of(x)@) by {
            if moved_in(*b, *c, x) {
                let o = choose|o: Seq<char>| #[trigger] moves(*b, *c, x, o);
                let p = choose|p: int| 0 <= p < pairs.len() && #[trigger] pairs@[p].0@ == x && pairs@[p].1@ == o;
                assert(pairs@[p].0@ == x);
            }
            if exists|p: int| 0 <= p < pairs.len() && #[trigger] pairs@[p].0@ == x {
                let p = choose|p: int| 0 <= p < pairs.len() && #[trigger] pairs@[p].0@ == x;
                assert(moves(*b, *c, x, pairs@[p].1@));
            }
        }
    }
}

// ------------------------------------------------------------- the forest --

/// Where a class hangs in the forest: under a class of the package, or under
/// a root named after something outside it.
pub enum ParentView {
    Class(Seq<char>),
    Outside(Seq<char>),
}

/// The bases of a class that resolve nowhere in the package, as written.
pub open spec fn unresolved_bases(keys: Seq<Seq<char>>, bases: Seq<Seq<char>>, module: Seq<char>) -> Seq<
    Seq<char>,
>
    decreases bases.len(),
{
    if bases.len() == 0 {
        Seq::empty()
    } else {
        let rest = unresolved_bases(keys, bases.drop_last(), module);
        match spec_resolve(keys, bases.last(), module) {
            Some(q) => rest,
            None => rest.push(bases.last()),
        }
    }
}

/// A class hangs off the first of its bases that resolves inside the package,
/// else under a root named after its first base, else under `object`. A class
/// that names itself first is parked under `object`.
pub open spec fn spec_parent(keys: Seq<Seq<char>>, q: Seq<char>, s: SubjectView) -> ParentView {
    let inside = resolved_bases(keys, s.bases, s.module);
    let outside = unresolved_bases(keys, s.bases, s.module);
    if inside.len() > 0 {
        if inside[0] == q {
            ParentView::Outside("object"@)
        } else {
            ParentView::Class(inside[0])
        }
    } else if outside.len() > 0 {
        ParentView::Outside(outside[0])
    } else {
        ParentView::Outside("object"@)
    }
}

/// The bases left over once a class is placed: further in-package bases by
/// their last segment, then the outside ones.
pub open spec fn spec_mixins(keys: Seq<Seq<char>>, s: SubjectView) -> Seq<Seq<char>> {
    let inside = resolved_bases(keys, s.bases, s.module);
    let outside = unresolved_bases(keys, s.bases, s.module);
    if inside.len() > 0 {
        inside.skip(1).map_values(|k: Seq<char>| spec_leaf(k)) + outside
    } else if outside.len() > 0 {
        outside.skip(1)
    } else {
        Seq::empty()
    }
}

/// The parent of the class under `k`.
pub open spec fn parent_of(entries: StrMap<Entry>, k: Seq<char>) -> ParentView {
    spec_parent(entries.key_list(), k, entries.value_of(k)@.subject)
}

/// The order siblings are drawn in: by class name, then by qualified name.
pub open spec fn sort_key(entries: StrMap<Entry>, k: Seq<char>) -> (Seq<char>, Seq<char>) {
    (entries.value_of(k)@.subject.name, k)
}

/// Whether a status alone keeps a branch on screen under the changes filter.
pub open spec fn holds(s: Status) -> bool {
    s != Status::Nominal && s != Status::Wake
}

/// The classes drawn in `n` and below it, in drawing order.
pub open spec fn class_keys(n: TreeNode) -> Seq<Seq<char>>
    decreases n, 1int, 0int,
{
    (if n.key is Subject {
        seq![node_id(n)]
    } else {
        Seq::empty()
    }) + class_keys_kids(n, 0)
}

pub open spec fn class_keys_kids(n: TreeNode, i: int) -> Seq<Seq<char>>
    decreases n, 0int, n.children@.len() - i,
{
    if i < 0 || i >= n.children@.len() {
        Seq::empty()
    } else {
        class_keys(n.children@[i]) + class_keys_kids(n, i + 1)
    }
}

/// The classes drawn in a list of trees, from position `i` on.
pub open spec fn class_keys_in(ns: Seq<TreeNode>, i: int) -> Seq<Seq<char>>
    decreases ns.len() - i,
{
    if i < 0 || i >= ns.len() {
        Seq::empty()
    } else {
        class_keys(ns[i]) + class_keys_in(ns, i + 1)
    }
}

/// `n` draws the class it names, under its own parent, with its children in
/// order and `touched` set exactly when it or something below it changed.
pub open spec fn grown(n: TreeNode, entries: StrMap<Entry>) -> bool
    decreases n, 1int, 0int,
{
    let k = node_id(n);
    let e = entries.value_of(k)@;
    &&& n.key is Subject
    &&& entries.has(k)
    &&& n.label@ == spec_strip_module(e.subject.qualname, e.subject.module, e.subject.name)
    &&& n.edge == Edge::Live
    &&& !n.repeat
    &&& n.note is None
    &&& n.touched == (holds(e.status) || exists|i: int|
        0 <= i < n.children@.len() && (#[trigger] n.children@[i]).touched)
    &&& grown_kids(n, 0, entries)
}

/// A class drawn in the inheritance forest is marked as holding a change
/// whenever its own status is one, a wake aside: activated, burned,
/// realigned, rerouted, relocated or amended.
pub proof fn law_changed_class_is_touched(n: TreeNode, entries: StrMap<Entry>)
    requires
        grown(n, entries),
        entries.value_of(node_id(n))@.status != Status::Nominal,
        entries.value_of(node_id(n))@.status != Status::Wake,
    ensures
        n.touched,
{
}

/// Some row of `rs` draws the class `k`.
pub open spec fn draws_class(rs: Seq<(Seq<char>, TreeNode)>, k: Seq<char>) -> bool {
    exists|i: int| 0 <= i < rs.len() && (#[trigger] rs[i]).1.key is Subject && node_id(rs[i].1) == k
}

proof fn lemma_draws_concat(a: Seq<(Seq<char>, TreeNode)>, b: Seq<(Seq<char>, TreeNode)>, k: Seq<char>)
    requires
        draws_class(a, k) || draws_class(b, k),
    ensures
        draws_class(a + b, k),
{
    if draws_class(a, k) {
        let i = choose|i: int| 0 <= i < a.len() && (#[trigger] a[i]).1.key is Subject && node_id(a[i].1) == k;
        assert((a + b)[i] == a[i]);
    } else {
        let i = choose|i: int| 0 <= i < b.len() && (#[trigger] b[i]).1.key is Subject && node_id(b[i].1) == k;
        assert((a + b)[a.len() + i] == b[i]);
    }
}

/// A class held below the children of `n` from position `i` on is held below
/// one of them.
proof fn lemma_held_by_a_kid(n: TreeNode, i: int, k: Seq<char>)
    requires
        0 <= i,
        class_keys_kids(n, i).contains(k),
    ensures
        exists|j: int| i <= j < n.children@.len() && class_keys(#[trigger] n.children@[j]).contains(k),
    decreases n.children@.len() - i,
{
    if i < n.children@.len() {
        vstd::seq_lib::lemma_seq_concat_contains_all_elements(class_keys(n.children@[i]), class_keys_kids(n, i + 1), k);
        if !class_keys(n.children@[i]).contains(k) {
            lemma_held_by_a_kid(n, i + 1, k);
        }
    }
}

/// A class held below the roots from position `i` on is held below one of them.
proof fn lemma_held_by_a_root(roots: Seq<TreeNode>, i: int, k: Seq<char>)
    requires
        0 <= i,
        class_keys_in(roots, i).contains(k),
    ensures
        exists|j: int| i <= j < roots.len() && class_keys(#[trigger] roots[j]).contains(k),
    decreases roots.len() - i,
{
    if i < roots.len() {
        vstd::seq_lib::lemma_seq_concat_contains_all_elements(class_keys(roots[i]), class_keys_in(roots, i + 1), k);
        if !class_keys(roots[i]).contains(k) {
            lemma_held_by_a_root(roots, i + 1, k);
        }
    }
}

proof fn lemma_grown_kids_all(n: TreeNode, i: int, entries: StrMap<Entry>)
    requires
        0 <= i,
        grown_kids(n, i, entries),
    ensures
        forall|t: int| i <= t < n.children@.len() ==> grown(#[trigger] n.children@[t], entries),
    decreases n.children@.len() - i,
{
    if i < n.children@.len() {
        lemma_grown_kids_all(n, i + 1, entries);
    }
}

/// A grown tree holding a changed class is marked touched.
proof fn lemma_holding_a_change_is_touched(n: TreeNode, entries: StrMap<Entry>, k: Seq<char>)
    requires
        grown(n, entries),
        class_keys(n).contains(k),
        holds(entries.value_of(k)@.status),
    ensures
        n.touched,
    decreases n, 1int, 0int,
{
    if k != node_id(n) {
        vstd::seq_lib::lemma_seq_concat_contains_all_elements(seq![node_id(n)], class_keys_kids(n, 0), k);
        lemma_held_by_a_kid(n, 0, k);
        let j = choose|j: int| 0 <= j < n.children@.len() && class_keys(#[trigger] n.children@[j]).contains(k);
        lemma_grown_kids_all(n, 0, entries);
        lemma_holding_a_change_is_touched(n.children@[j], entries, k);
    }
}

/// The rows of the children of `n` from `i` on include those of a touched
/// child at `j`.
proof fn lemma_rows_kids_hold(n: TreeNode, i: int, j: int, entries: StrMap<Entry>, k: Seq<char>, prefix: Seq<char>)
    requires
        0 <= i <= j < n.children@.len(),
        grown(n.children@[j], entries),
        class_keys(n.children@[j]).contains(k),
        holds(entries.value_of(k)@.status),
    ensures
        draws_class(crate::sitrep::rows_of_kids(n, i, prefix, true), k),
    decreases n, 0int, j - i,
{
    let kid = n.children@[i];
    if i == j {
        lemma_holding_a_change_is_touched(kid, entries, k);
        lemma_changes_drawn(kid, entries, k, prefix, !crate::sitrep::shown_after(n.children@, i, true));
        lemma_draws_concat(
            crate::sitrep::rows_of(kid, prefix, !crate::sitrep::shown_after(n.children@, i, true), true),
            crate::sitrep::rows_of_kids(n, i + 1, prefix, true),
            k,
        );
    } else {
        lemma_rows_kids_hold(n, i + 1, j, entries, k, prefix);
        let here = if crate::sitrep::shown(kid, true) {
            crate::sitrep::rows_of(kid, prefix, !crate::sitrep::shown_after(n.children@, i, true), true)
        } else {
            Seq::empty()
        };
        lemma_draws_concat(here, crate::sitrep::rows_of_kids(n, i + 1, prefix, true), k);
    }
}

/// A grown tree holding a changed class draws it under the changes filter.
proof fn lemma_changes_drawn(n: TreeNode, entries: StrMap<Entry>, k: Seq<char>, prefix: Seq<char>, last: bool)
    requires
        grown(n, entries),
        class_keys(n).contains(k),
        holds(entries.value_of(k)@.status),
    ensures
        draws_class(crate::sitrep::rows_of(n, prefix, last, true), k),
    decreases n, 2int, 0int,
{
    let first = seq![(prefix + crate::sitrep::connector(prefix, last), n)];
    let rest = crate::sitrep::rows_of_kids(n, 0, crate::sitrep::child_prefix(prefix, last), true);
    if k == node_id(n) {
        assert(first[0].1 == n);
        assert(draws_class(first, k));
    } else {
        vstd::seq_lib::lemma_seq_concat_contains_all_elements(seq![node_id(n)], class_keys_kids(n, 0), k);
        lemma_held_by_a_kid(n, 0, k);
        let j = choose|j: int| 0 <= j < n.children@.len() && class_keys(#[trigger] n.children@[j]).contains(k);
        lemma_grown_kids_all(n, 0, entries);
        lemma_rows_kids_hold(n, 0, j, entries, k, crate::sitrep::child_prefix(prefix, last));
    }
    lemma_draws_concat(first, rest, k);
}

/// The rows of the roots from `i` on draw a changed class held below one of
/// them.
proof fn lemma_roots_draw(roots: Seq<TreeNode>, i: int, j: int, entries: StrMap<Entry>, k: Seq<char>)
    requires
        0 <= i <= j < roots.len(),
        root_ok(entries, roots[j]),
        class_keys(roots[j]).contains(k),
        holds(entries.value_of(k)@.status),
    ensures
        draws_class(rows_of_roots(roots, i, true), k),
    decreases j - i,
{
    let r = roots[i];
    if i == j {
        assert(class_keys(r) == class_keys_kids(r, 0));
        lemma_held_by_a_kid(r, 0, k);
        let t = choose|t: int| 0 <= t < r.children@.len() && class_keys(#[trigger] r.children@[t]).contains(k);
        lemma_holding_a_change_is_touched(r.children@[t], entries, k);
        assert(r.touched);
        let last = !crate::sitrep::shown_after(roots, i, true);
        let cp = crate::sitrep::child_prefix(Seq::empty(), last);
        lemma_rows_kids_hold(r, 0, t, entries, k, cp);
        let first = seq![(Seq::<char>::empty() + crate::sitrep::connector(Seq::empty(), last), r)];
        lemma_draws_concat(first, crate::sitrep::rows_of_kids(r, 0, cp, true), k);
        lemma_draws_concat(crate::sitrep::rows_of(r, Seq::empty(), last, true), rows_of_roots(roots, i + 1, true), k);
    } else {
        lemma_roots_draw(roots, i + 1, j, entries, k);
        let here = if crate::sitrep::shown(r, true) {
            crate::sitrep::rows_of(r, Seq::empty(), !crate::sitrep::shown_after(roots, i, true), true)
        } else {
            Seq::empty()
        };
        lemma_draws_concat(here, rows_of_roots(roots, i + 1, true), k);
    }
}

/// With only changes shown, the inheritance tree still draws every class
/// whose status is a change other than a wake, relocated classes included,
/// along with the branch that leads to it.
pub proof fn law_changes_only_keeps_every_changed_class(entries: StrMap<Entry>, roots: Seq<TreeNode>, k: Seq<char>)
    requires
        forest_ok(entries, roots),
        entries.has(k),
        entries.value_of(k)@.status != Status::Nominal,
        entries.value_of(k)@.status != Status::Wake,
    ensures
        draws_class(rows_of_roots(roots, 0, true), k),
{
    let m = choose|m: int| roots_split(entries, roots, m);
    lemma_held_by_a_root(roots, 0, k);
    let j = choose|j: int| 0 <= j < roots.len() && class_keys(#[trigger] roots[j]).contains(k);
    if j < m {
        assert(outside_root_ok(entries, roots[j]));
    }
    lemma_roots_draw(roots, 0, j, entries, k);
}

pub open spec fn grown_kids(n: TreeNode, i: int, entries: StrMap<Entry>) -> bool
    decreases n, 0int, n.children@.len() - i,
{
    if i < 0 || i >= n.children@.len() {
        true
    } else {
        let kid = n.children@[i];
        &&& parent_of(entries, node_id(kid)) == ParentView::Class(node_id(n))
        &&& grown(kid, entries)
        &&& (i + 1 < n.children@.len() ==> pair_lt(
            sort_key(entries, node_id(kid)),
            sort_key(entries, node_id(n.children@[i + 1])),
        ))
        &&& grown_kids(n, i + 1, entries)
    }
}

proof fn lemma_grown_kids(n: TreeNode, entries: StrMap<Entry>, i: int)
    requires
        0 <= i <= n.children@.len(),
        forall|t: int| i <= t < n.children@.len() ==> parent_of(entries, node_id(#[trigger] n.children@[t]))
            == ParentView::Class(node_id(n)) && grown(n.children@[t], entries),
        forall|t: int| i <= t < n.children@.len() - 1 ==> pair_lt(
            sort_key(entries, node_id(#[trigger] n.children@[t])),
            sort_key(entries, node_id(n.children@[t + 1])),
        ),
    ensures
        grown_kids(n, i, entries),
    decreases n.children@.len() - i,
{
    if i < n.children@.len() {
        lemma_grown_kids(n, entries, i + 1);
    }
}

/// The keys a map of marks holds, as a set.
pub open spec fn placed_set(m: StrMap<()>) -> Set<Seq<char>> {
    Set::new(|x: Seq<char>| m.has(x))
}

/// `n` is drawn where its class is first reached, the classes of `before`
/// having been drawn already: its class was not drawn before, every class
/// hung under it that was not drawn before is drawn in its branch, and the
/// same holds of its children in order.
pub open spec fn reached_first(n: TreeNode, entries: StrMap<Entry>, before: Set<Seq<char>>) -> bool
    decreases n, 1int, 0int,
{
    &&& !before.contains(node_id(n))
    &&& forall|c: Seq<char>| entries.has(c) && #[trigger] parent_of(entries, c) == ParentView::Class(node_id(n))
        ==> before.contains(c) || class_keys(n).contains(c)
    &&& reached_first_kids(n, 0, entries, before.insert(node_id(n)))
}

pub open spec fn reached_first_kids(n: TreeNode, i: int, entries: StrMap<Entry>, before: Set<Seq<char>>) -> bool
    decreases n, 0int, n.children@.len() - i,
{
    if i < 0 || i >= n.children@.len() {
        true
    } else {
        &&& reached_first(n.children@[i], entries, before)
        &&& reached_first_kids(n, i + 1, entries, before + class_keys(n.children@[i]).to_set())
    }
}

/// The nodes of `ns` from position `i` on are each drawn where first reached.
pub open spec fn reached_first_in(ns: Seq<TreeNode>, i: int, entries: StrMap<Entry>, before: Set<Seq<char>>) -> bool
    decreases ns.len() - i,
{
    if i < 0 || i >= ns.len() {
        true
    } else {
        &&& reached_first(ns[i], entries, before)
        &&& reached_first_in(ns, i + 1, entries, before + class_keys(ns[i]).to_set())
    }
}

/// The classes under the roots from position `i` on are each drawn where
/// first reached, root after root.
pub open spec fn reached_first_roots(roots: Seq<TreeNode>, i: int, entries: StrMap<Entry>, before: Set<Seq<char>>) -> bool
    decreases roots.len() - i,
{
    if i < 0 || i >= roots.len() {
        true
    } else {
        &&& reached_first_in(roots[i].children@, 0, entries, before)
        &&& reached_first_roots(roots, i + 1, entries, before + class_keys(roots[i]).to_set())
    }
}

proof fn lemma_reached_first_kids(n: TreeNode, i: int, entries: StrMap<Entry>, before: Set<Seq<char>>)
    requires
        0 <= i <= n.children@.len(),
    ensures
        reached_first_kids(n, i, entries, before) == reached_first_in(n.children@, i, entries, before),
    decreases n.children@.len() - i,
{
    if i < n.children@.len() {
        lemma_reached_first_kids(n, i + 1, entries, before + class_keys(n.children@[i]).to_set());
    }
}

proof fn lemma_keys_union(a: Seq<Seq<char>>, b: Seq<Seq<char>>, before: Set<Seq<char>>)
    ensures
        (before + a.to_set()) + b.to_set() == before + (a + b).to_set(),
{
    assert forall|k: Seq<char>| #[trigger] (a + b).contains(k) <==> (a.contains(k) || b.contains(k)) by {
        vstd::seq_lib::lemma_seq_concat_contains_all_elements(a, b, k);
    }
    assert((before + a.to_set()) + b.to_set() =~= before + (a + b).to_set());
}

proof fn lemma_reached_first_push(ns: Seq<TreeNode>, x: TreeNode, i: int, entries: StrMap<Entry>, before: Set<Seq<char>>)
    requires
        0 <= i <= ns.len(),
    ensures
        reached_first_in(ns.push(x), i, entries, before) == (reached_first_in(ns, i, entries, before) && reached_first(
            x,
            entries,
            before + class_keys_in(ns, i).to_set(),
        )),
    decreases ns.len() - i,
{
    if i < ns.len() {
        let more = before + class_keys(ns[i]).to_set();
        lemma_reached_first_push(ns, x, i + 1, entries, more);
        assert(ns.push(x)[i] == ns[i]);
        assert(class_keys_in(ns, i) == class_keys(ns[i]) + class_keys_in(ns, i + 1));
        lemma_keys_union(class_keys(ns[i]), class_keys_in(ns, i + 1), before);
        assert(reached_first_in(ns.push(x), i, entries, before) == (reached_first(ns[i], entries, before)
            && reached_first_in(ns.push(x), i + 1, entries, more)));
        assert(reached_first_in(ns, i, entries, before) == (reached_first(ns[i], entries, before) && reached_first_in(
            ns,
            i + 1,
            entries,
            more,
        )));
    } else {
        assert(ns.push(x)[i] == x);
        assert(class_keys_in(ns, i) =~= Seq::<Seq<char>>::empty());
        assert(before + class_keys_in(ns, i).to_set() =~= before);
        assert(reached_first_in(ns.push(x), i + 1, entries, before + class_keys(x).to_set()));
        assert(reached_first_in(ns, i, entries, before));
    }
}

proof fn lemma_reached_first_roots_push(rs: Seq<TreeNode>, x: TreeNode, i: int, entries: StrMap<Entry>, before: Set<Seq<char>>)
    requires
        0 <= i <= rs.len(),
    ensures
        reached_first_roots(rs.push(x), i, entries, before) == (reached_first_roots(rs, i, entries, before)
            && reached_first_in(x.children@, 0, entries, before + class_keys_in(rs, i).to_set())),
    decreases rs.len() - i,
{
    if i < rs.len() {
        let more = before + class_keys(rs[i]).to_set();
        lemma_reached_first_roots_push(rs, x, i + 1, entries, more);
        assert(rs.push(x)[i] == rs[i]);
        assert(class_keys_in(rs, i) == class_keys(rs[i]) + class_keys_in(rs, i + 1));
        lemma_keys_union(class_keys(rs[i]), class_keys_in(rs, i + 1), before);
        assert(reached_first_roots(rs.push(x), i, entries, before) == (reached_first_in(rs[i].children@, 0, entries, before)
            && reached_first_roots(rs.push(x), i + 1, entries, more)));
        assert(reached_first_roots(rs, i, entries, before) == (reached_first_in(rs[i].children@, 0, entries, before)
            && reached_first_roots(rs, i + 1, entries, more)));
    } else {
        assert(rs.push(x)[i] == x);
        assert(class_keys_in(rs, i) =~= Seq::<Seq<char>>::empty());
        assert(before + class_keys_in(rs, i).to_set() =~= before);
        assert(reached_first_roots(rs.push(x), i + 1, entries, before + class_keys(x).to_set()));
        assert(reached_first_roots(rs, i, entries, before));
    }
}

/// Each of `kids` was grown from an entry of `list`, and every entry ahead of
/// that one in the list had been drawn by then, before the kids or ahead of it.
pub open spec fn in_list_order(kids: Seq<TreeNode>, list: Seq<(Seq<char>, Seq<char>)>, start: Set<Seq<char>>) -> bool {
    forall|t: int| 0 <= t < kids.len() ==> exists|q: int|
        0 <= q < list.len() && list[q].1 == node_id(#[trigger] kids[t]) && forall|r: int|
            0 <= r < q ==> (start + class_keys_in(kids.take(t), 0).to_set()).contains(#[trigger] list[r].1)
}

proof fn lemma_class_keys_kids(n: TreeNode, i: int)
    requires
        0 <= i <= n.children@.len(),
    ensures
        class_keys_kids(n, i) == class_keys_in(n.children@, i),
    decreases n.children@.len() - i,
{
    if i < n.children@.len() {
        lemma_class_keys_kids(n, i + 1);
    }
}

proof fn lemma_class_keys_push(ns: Seq<TreeNode>, x: TreeNode, i: int)
    requires
        0 <= i <= ns.len(),
    ensures
        class_keys_in(ns.push(x), i) == class_keys_in(ns, i) + class_keys(x),
    decreases ns.len() - i,
{
    if i < ns.len() {
        lemma_class_keys_push(ns, x, i + 1);
        assert(ns.push(x)[i] == ns[i]);
        assert(class_keys_in(ns.push(x), i) =~= class_keys_in(ns, i) + class_keys(x));
    } else {
        assert(ns.push(x)[i] == x);
        assert(class_keys_in(ns.push(x), i + 1) =~= Seq::<Seq<char>>::empty());
        assert(class_keys_in(ns.push(x), i) =~= class_keys_in(ns, i) + class_keys(x));
    }
}

/// Under each parent, the classes hanging off it, in drawing order.
pub open spec fn children_ok(entries: StrMap<Entry>, by_parent: StrMap<Vec<(String, String)>>) -> bool {
    &&& forall|c: Seq<char>| #[trigger] entries.has(c) ==> (parent_of(entries, c) matches ParentView::Class(p) ==> by_parent.has(p)
        && pair_views(by_parent.value_of(p)@).contains(sort_key(entries, c)))
    &&& forall|p: Seq<char>| #[trigger] by_parent.has(p) ==> {
        let list = pair_views(by_parent.value_of(p)@);
        &&& pairs_sorted(list)
        &&& forall|j: int| 0 <= j < list.len() ==> {
            &&& entries.has(#[trigger] list[j].1)
            &&& list[j] == sort_key(entries, list[j].1)
            &&& parent_of(entries, list[j].1) == ParentView::Class(p)
        }
    }
}

/// The keys held in `placed` are no more than those of `entries`.
proof fn lemma_placed_bound(placed: StrMap<()>, entries: StrMap<Entry>)
    requires
        placed.inv(),
        entries.inv(),
        forall|x: Seq<char>| #[trigger] placed.has(x) ==> entries.has(x),
    ensures
        placed.key_list().len() <= entries.key_list().len(),
{
    assert forall|x: Seq<char>| #[trigger] placed.key_list().contains(x) implies entries.key_list().contains(x) by {
        assert(placed.has(x));
    }
    lemma_sorted_len_bound(placed.key_list(), entries.key_list());
}

/// Grow the trees of a list of classes, skipping those already drawn.
fn grow_list(
    list: &Vec<(String, String)>,
    entries: &StrMap<Entry>,
    by_parent: &StrMap<Vec<(String, String)>>,
    placed: &mut StrMap<()>,
) -> (kids: Vec<TreeNode>)
    requires
        children_ok(*entries, *by_parent),
        forall|x: Seq<char>| #[trigger] old(placed).has(x) ==> entries.has(x),
        forall|j: int| 0 <= j < list.len() ==> entries.has(#[trigger] pair_views(list@)[j].1)
            && pair_views(list@)[j] == sort_key(*entries, pair_views(list@)[j].1),
    ensures
        forall|x: Seq<char>| #[trigger] final(placed).has(x) ==> entries.has(x),
        old(placed).key_list().len() <= final(placed).key_list().len(),
        forall|x: Seq<char>| #[trigger] final(placed).has(x) <==> (old(placed).has(x) || class_keys_in(kids@, 0).contains(x)),
        class_keys_in(kids@, 0).no_duplicates(),
        forall|x: Seq<char>| #[trigger] class_keys_in(kids@, 0).contains(x) ==> !old(placed).has(x),
        forall|t: int| 0 <= t < kids.len() ==> grown(#[trigger] kids@[t], *entries) && exists|j: int|
            0 <= j < list.len() && pair_views(list@)[j].1 == node_id(kids@[t]),
        pairs_sorted(pair_views(list@)) ==> forall|t: int| 0 <= t < kids.len() - 1 ==> pair_lt(
            sort_key(*entries, node_id(#[trigger] kids@[t])),
            sort_key(*entries, node_id(kids@[t + 1])),
        ),
        forall|j: int| 0 <= j < list.len() ==> final(placed).has(#[trigger] pair_views(list@)[j].1),
        list.len() > 0 && !old(placed).has(pair_views(list@)[0].1) ==> kids.len() > 0,
        reached_first_in(kids@, 0, *entries, placed_set(*old(placed))),
        in_list_order(kids@, pair_views(list@), placed_set(*old(placed))),
    decreases entries.key_list().len() - old(placed).key_list().len(), 1int,
{
    broadcast use vstd::seq_lib::lemma_seq_concat_contains_all_elements;
    proof {
        use_type_invariant(&*placed);
        use_type_invariant(entries);
        lemma_placed_bound(*placed, *entries);
    }
    let ghost start = *placed;
    let ghost lv = pair_views(list@);
    let mut kids: Vec<TreeNode> = Vec::new();
    let mut j: usize = 0;
    let ghost mut last: int = -1;
    while j < list.len()
        invariant
            children_ok(*entries, *by_parent),
            lv == pair_views(list@),
            forall|q: int| 0 <= q < list.len() ==> entries.has(#[trigger] lv[q].1) && lv[q] == sort_key(*entries, lv[q].1),
            j <= list.len(),
            forall|x: Seq<char>| #[trigger] placed.has(x) ==> entries.has(x),
            forall|x: Seq<char>| #[trigger] start.has(x) ==> placed.has(x),
            start == *old(placed),
            start.key_list().len() <= placed.key_list().len(),
            start.key_list().len() <= entries.key_list().len(),
            forall|x: Seq<char>| #[trigger] placed.has(x) <==> (start.has(x) || class_keys_in(kids@, 0).contains(x)),
            class_keys_in(kids@, 0).no_duplicates(),
            forall|x: Seq<char>| #[trigger] class_keys_in(kids@, 0).contains(x) ==> !start.has(x),
            forall|t: int| 0 <= t < kids.len() ==> grown(#[trigger] kids@[t], *entries) && exists|q: int|
                0 <= q < list.len() && lv[q].1 == node_id(kids@[t]),
            -1 <= last < j,
            kids.len() > 0 ==> 0 <= last && lv[last].1 == node_id(kids@[kids.len() - 1]),
            pairs_sorted(lv) ==> forall|t: int| 0 <= t < kids.len() - 1 ==> pair_lt(
                sort_key(*entries, node_id(#[trigger] kids@[t])),
                sort_key(*entries, node_id(kids@[t + 1])),
            ),
            forall|q: int| 0 <= q < j ==> placed.has(#[trigger] lv[q].1),
            (list.len() > 0 && !start.has(lv[0].1) && j > 0) ==> kids.len() > 0,
            reached_first_in(kids@, 0, *entries, placed_set(start)),
            in_list_order(kids@, lv, placed_set(start)),
        decreases list.len() - j,
    {
        proof {
            use_type_invariant(&*placed);
            use_type_invariant(entries);
            lemma_placed_bound(*placed, *entries);
        }
        let ghost before = kids@;
        let ghost pre = *placed;
        assert(lv[j as int].1 == list@[j as int].1@);
        match grow(&list[j].1, entries, by_parent, placed) {
            Some(node) => {
                let ghost nv = node;
                proof {
                    assert(nv.key is Subject);
                    assert(class_keys(nv) == seq![node_id(nv)] + class_keys_kids(nv, 0));
                    assert(class_keys(nv)[0] == lv[j as int].1);
                    assert(class_keys(nv).contains(lv[j as int].1));
                    assert(placed.has(lv[j as int].1));
                    lemma_class_keys_push(before, nv, 0);
                    let bk = class_keys_in(before, 0);
                    let nk = class_keys(nv);
                    assert forall|a: int, b: int| 0 <= a < bk.len() && 0 <= b < nk.len() implies bk[a] != nk[b] by {
                        assert(bk.contains(bk[a]));
                        assert(nk.contains(nk[b]));
                        assert(pre.has(bk[a]));
                    }
                    vstd::seq_lib::lemma_no_dup_in_concat(class_keys_in(before, 0), class_keys(nv));
                    assert(lv[j as int].1 == list@[j as int].1@);
                    if pairs_sorted(lv) && kids.len() > 0 {
                        assert(pair_lt(lv[last], lv[j as int]));
                    }
                }
                kids.push(node);
                proof {
                    assert(kids@ == before.push(nv));
                    assert(kids@[kids.len() - 1] == nv);
                    assert(placed_set(pre) =~= placed_set(start) + class_keys_in(before, 0).to_set());
                    lemma_reached_first_push(before, nv, 0, *entries, placed_set(start));
                    assert forall|t: int| 0 <= t < kids.len() implies exists|q: int|
                        0 <= q < lv.len() && lv[q].1 == node_id(#[trigger] kids@[t]) && forall|r: int|
                            0 <= r < q ==> (placed_set(start) + class_keys_in(kids@.take(t), 0).to_set()).contains(
                                #[trigger] lv[r].1,
                            ) by {
                        if t < before.len() {
                            assert(kids@[t] == before[t]);
                            assert(kids@.take(t) =~= before.take(t));
                        } else {
                            assert(kids@.take(t) =~= before);
                            assert forall|r: int| 0 <= r < j implies (placed_set(start) + class_keys_in(kids@.take(t), 0).to_set()).contains(
                                #[trigger] lv[r].1,
                            ) by {
                                assert(pre.has(lv[r].1));
                            }
                            assert(lv[j as int].1 == node_id(kids@[t]));
                        }
                    }
                    last = j as int;
                    let all = class_keys_in(kids@, 0);
                    assert(all == class_keys_in(before, 0) + class_keys(nv));
                    assert forall|x: Seq<char>| #[trigger] placed.has(x) <==> (start.has(x) || all.contains(x)) by {
                        vstd::seq_lib::lemma_seq_concat_contains_all_elements(class_keys_in(before, 0), class_keys(nv), x);
                    }
                    assert forall|x: Seq<char>| #[trigger] all.contains(x) implies !start.has(x) by {
                        vstd::seq_lib::lemma_seq_concat_contains_all_elements(class_keys_in(before, 0), class_keys(nv), x);
                        if class_keys(nv).contains(x) {
                            assert(!pre.has(x));
                        }
                    }
                }
            },
            None => {
                assert(placed.has(lv[j as int].1));
            },
        }
        proof {
            assert forall|q: int| 0 <= q < j + 1 implies placed.has(#[trigger] lv[q].1) by {
                if q == j {
                } else {
                    assert(pre.has(lv[q].1));
                }
            }
        }
        j = j + 1;
    }
    kids
}

/// The tree of one class and everything hanging off it, unless it has been
/// drawn already.
fn grow(
    k: &String,
    entries: &StrMap<Entry>,
    by_parent: &StrMap<Vec<(String, String)>>,
    placed: &mut StrMap<()>,
) -> (r: Option<TreeNode>)
    requires
        children_ok(*entries, *by_parent),
        forall|x: Seq<char>| #[trigger] old(placed).has(x) ==> entries.has(x),
    ensures
        forall|x: Seq<char>| #[trigger] final(placed).has(x) ==> entries.has(x),
        old(placed).key_list().len() <= final(placed).key_list().len(),
        match r {
            None => (old(placed).has(k@) || !entries.has(k@)) && forall|x: Seq<char>|
                #[trigger] final(placed).has(x) <==> old(placed).has(x),
            Some(n) => {
                &&& node_id(n) == k@
                &&& grown(n, *entries)
                &&& class_keys(n).no_duplicates()
                &&& forall|x: Seq<char>| #[trigger] class_keys(n).contains(x) ==> !old(placed).has(x)
                &&& forall|x: Seq<char>| #[trigger] final(placed).has(x) <==> (old(placed).has(x)
                    || class_keys(n).contains(x))
                &&& reached_first(n, *entries, placed_set(*old(placed)))
            },
        },
    decreases entries.key_list().len() - old(placed).key_list().len(), 0int,
{
    broadcast use vstd::seq_lib::lemma_seq_concat_contains_all_elements;
    if placed.contains_key(k.as_str()) {
        return None;
    }
    let entry = match entries.get(k.as_str()) {
        Some(e) => e,
        None => return None,
    };
    let ghost start = *placed;
    placed.put(k.clone(), ());
    proof {
        use_type_invariant(&*placed);
        use_type_invariant(entries);
        lemma_placed_bound(*placed, *entries);
        assert(placed_set(*placed) =~= placed_set(start).insert(k@));
    }
    let ghost put = *placed;
    let kids = match by_parent.get(k.as_str()) {
        Some(list) => grow_list(list, entries, by_parent, placed),
        None => Vec::new(),
    };
    let mut any = false;
    let mut i: usize = 0;
    while i < kids.len()
        invariant
            i <= kids.len(),
            any == exists|t: int| 0 <= t < i && (#[trigger] kids@[t]).touched,
        decreases kids.len() - i,
    {
        if kids[i].touched {
            any = true;
        }
        i = i + 1;
    }
    let mut node = TreeNode::new(NodeKey::Subject(k.clone()), entry.subject.display_name());
    node.touched = entry.status.holds_branch() || any;
    node.children = kids;
    proof {
        assert(node_id(node) == k@);
        assert(node.children@ == kids@);
        lemma_class_keys_kids(node, 0);
        if by_parent.has(k@) {
            let list = pair_views(by_parent.value_of(k@)@);
            assert forall|t: int| 0 <= t < node.children@.len() implies parent_of(*entries, node_id(
                #[trigger] node.children@[t],
            )) == ParentView::Class(node_id(node)) && grown(node.children@[t], *entries) by {
                assert(grown(kids@[t], *entries));
                let q = choose|q: int| 0 <= q < list.len() && list[q].1 == node_id(kids@[t]);
                assert(entries.has(list[q].1));
            }
        }
        lemma_grown_kids(node, *entries, 0);
        assert(class_keys(node) == seq![k@] + class_keys_in(kids@, 0));
        assert(seq![k@].no_duplicates());
        assert forall|a: int, b: int| 0 <= a < 1 && 0 <= b < class_keys_in(kids@, 0).len() implies seq![k@][a]
            != class_keys_in(kids@, 0)[b] by {
            assert(class_keys_in(kids@, 0).contains(class_keys_in(kids@, 0)[b]));
        }
        vstd::seq_lib::lemma_no_dup_in_concat(seq![k@], class_keys_in(kids@, 0));
        assert(seq![k@][0] == k@);
        assert(seq![k@].contains(k@));
        assert forall|x: Seq<char>| #[trigger] class_keys(node).contains(x) implies !start.has(x) by {
            if seq![k@].contains(x) {
                assert(seq![k@][0] == x);
            }
        }
        assert forall|x: Seq<char>| #[trigger] placed.has(x) <==> (start.has(x) || class_keys(node).contains(x)) by {
            if seq![k@].contains(x) {
                assert(seq![k@][0] == x);
            }
        }
        lemma_reached_first_kids(node, 0, *entries, placed_set(start).insert(k@));
        if !by_parent.has(k@) {
            assert(kids@.len() == 0);
            assert(reached_first_in(kids@, 0, *entries, placed_set(start).insert(k@)));
        }
        assert forall|c: Seq<char>| entries.has(c) && #[trigger] parent_of(*entries, c) == ParentView::Class(node_id(node))
            implies placed_set(start).contains(c) || class_keys(node).contains(c) by {
            assert(by_parent.has(k@));
            let list = pair_views(by_parent.value_of(k@)@);
            assert(list.contains(sort_key(*entries, c)));
            let w = choose|w: int| 0 <= w < list.len() && list[w] == sort_key(*entries, c);
            assert(placed.has(list[w].1));
        }
        assert(reached_first(node, *entries, placed_set(start)));
    }
    Some(node)
}

/// The in-package and the outside bases of a class, in declaration order.
fn split_bases(entries: &StrMap<Entry>, s: &Subject) -> (r: (Vec<String>, Vec<String>))
    ensures
        names(r.0@) == resolved_bases(entries.key_list(), s@.bases, s@.module),
        names(r.1@) == unresolved_bases(entries.key_list(), s@.bases, s@.module),
{
    let ghost keys = entries.key_list();
    let ghost bases = names(s.bases@);
    let mut inside: Vec<String> = Vec::new();
    let mut outside: Vec<String> = Vec::new();
    let mut i: usize = 0;
    assert(names(inside@) =~= resolved_bases(keys, bases.take(0), s.module@));
    assert(names(outside@) =~= unresolved_bases(keys, bases.take(0), s.module@));
    while i < s.bases.len()
        invariant
            keys == entries.key_list(),
            bases == names(s.bases@),
            i <= s.bases.len(),
            names(inside@) == resolved_bases(keys, bases.take(i as int), s.module@),
            names(outside@) == unresolved_bases(keys, bases.take(i as int), s.module@),
        decreases s.bases.len() - i,
    {
        let ghost bi = inside@;
        let ghost bo = outside@;
        assert(bases.take(i + 1).drop_last() =~= bases.take(i as int));
        assert(bases.take(i + 1).last() == s.bases@[i as int]@);
        match crate::dossier::resolve_in(entries, s.bases[i].as_str(), s.module.as_str()) {
            Some(q) => {
                let c = crate::text::owned(q);
                inside.push(c);
                assert(names(inside@) =~= names(bi).push(c@));
            },
            None => {
                let c = s.bases[i].clone();
                outside.push(c);
                assert(names(outside@) =~= names(bo).push(c@));
            },
        }
        i = i + 1;
    }
    assert(bases.take(i as int) =~= bases);
    (inside, outside)
}

/// The mixins of a class, from its split bases.
fn mixins_of(inside: &Vec<String>, outside: &Vec<String>) -> (m: Vec<String>)
    ensures
        names(m@) == (if inside.len() > 0 {
            names(inside@).skip(1).map_values(|k: Seq<char>| spec_leaf(k)) + names(outside@)
        } else if outside.len() > 0 {
            names(outside@).skip(1)
        } else {
            Seq::empty()
        }),
{
    let mut m: Vec<String> = Vec::new();
    if inside.len() > 0 {
        let mut i: usize = 1;
        while i < inside.len()
            invariant
                1 <= i <= inside.len(),
                names(m@) == names(inside@).subrange(1, i as int).map_values(|k: Seq<char>| spec_leaf(k)),
            decreases inside.len() - i,
        {
            let ghost before = m@;
            let l = crate::text::leaf_of(inside[i].as_str());
            m.push(l);
            assert(names(m@) =~= names(before).push(l@));
            assert(names(inside@).subrange(1, i + 1) =~= names(inside@).subrange(1, i as int).push(
                names(inside@)[i as int],
            ));
            i = i + 1;
        }
        let ghost lead = m@;
        let mut j: usize = 0;
        while j < outside.len()
            invariant
                j <= outside.len(),
                names(m@) == names(lead) + names(outside@).take(j as int),
            decreases outside.len() - j,
        {
            let ghost before = m@;
            m.push(outside[j].clone());
            assert(names(m@) =~= names(before).push(names(outside@)[j as int]));
            assert(names(outside@).take(j + 1) =~= names(outside@).take(j as int).push(names(outside@)[j as int]));
            j = j + 1;
        }
        assert(names(inside@).subrange(1, inside.len() as int) =~= names(inside@).skip(1));
        assert(names(outside@).take(j as int) =~= names(outside@));
    } else if outside.len() > 0 {
        let mut j: usize = 1;
        while j < outside.len()
            invariant
                1 <= j <= outside.len(),
                names(m@) == names(outside@).subrange(1, j as int),
            decreases outside.len() - j,
        {
            let ghost before = m@;
            m.push(outside[j].clone());
            assert(names(m@) =~= names(before).push(names(outside@)[j as int]));
            assert(names(outside@).subrange(1, j + 1) =~= names(outside@).subrange(1, j as int).push(
                names(outside@)[j as int],
            ));
            j = j + 1;
        }
        assert(names(outside@).subrange(1, outside.len() as int) =~= names(outside@).skip(1));
    } else {
        assert(names(m@) =~= Seq::<Seq<char>>::empty());
    }
    m
}

/// The classes filed under each root name, in drawing order: every class
/// whose parent is outside the package is filed under that name, and no name
/// is filed with nothing under it.
pub open spec fn roots_ok(entries: StrMap<Entry>, by_root: StrMap<Vec<(String, String)>>) -> bool {
    &&& forall|c: Seq<char>| #[trigger] entries.has(c) ==> (parent_of(entries, c) matches ParentView::Outside(p) ==> by_root.has(p)
        && pair_views(by_root.value_of(p)@).contains(sort_key(entries, c)))
    &&& forall|p: Seq<char>| #[trigger] by_root.has(p) ==> {
        let list = pair_views(by_root.value_of(p)@);
        &&& list.len() > 0
        &&& pairs_sorted(list)
        &&& forall|j: int| 0 <= j < list.len() ==> {
            &&& entries.has(#[trigger] list[j].1)
            &&& list[j] == sort_key(entries, list[j].1)
            &&& parent_of(entries, list[j].1) == ParentView::Outside(p)
        }
    }
}

/// `new` is `old` with its mixins worked out.
pub open spec fn settled(keys: Seq<Seq<char>>, old: EntryView, new: EntryView) -> bool {
    &&& new.subject == old.subject
    &&& new.status == old.status
    &&& new.prior_bases == old.prior_bases
    &&& new.prior_module == old.prior_module
    &&& new.gained == old.gained
    &&& new.lost == old.lost
    &&& new.mixins == spec_mixins(keys, old.subject)
}

/// Add `item` to the list filed under `p`.
fn file_under(groups: &mut StrMap<Vec<(String, String)>>, p: String, item: (String, String))
    requires
        forall|q: Seq<char>| #[trigger] old(groups).has(q) ==> pairs_sorted(pair_views(old(groups).value_of(q)@)),
        forall|q: Seq<char>, j: int| #[trigger] old(groups).has(q) && 0 <= j < old(groups).value_of(q)@.len()
            ==> #[trigger] old(groups).value_of(q)@[j].1@ != item.1@,
    ensures
        final(groups).has(p@),
        forall|q: Seq<char>| q != p@ ==> (#[trigger] final(groups).has(q) <==> old(groups).has(q)),
        forall|q: Seq<char>| q != p@ && old(groups).has(q) ==> #[trigger] final(groups).value_of(q)
            == old(groups).value_of(q),
        pairs_sorted(pair_views(final(groups).value_of(p@)@)),
        forall|x: (Seq<char>, Seq<char>)| #[trigger] pair_views(final(groups).value_of(p@)@).contains(x) <==> (x
            == (item.0@, item.1@) || (old(groups).has(p@) && pair_views(old(groups).value_of(p@)@).contains(x))),
{
    let ghost it = (item.0@, item.1@);
    let mut list = match groups.take(p.as_str()) {
        Some(list) => list,
        None => Vec::new(),
    };
    let ghost lb = pair_views(list@);
    proof {
        assert(!lb.contains(it)) by {
            if lb.contains(it) {
                let j = choose|j: int| 0 <= j < lb.len() && lb[j] == it;
                assert(list@[j].1@ == item.1@);
            }
        }
    }
    insert_pair(&mut list, item);
    proof {
        let pos = choose|pos: int| 0 <= pos <= lb.len() && pair_views(list@) == lb.insert(pos, it);
        assert forall|x: (Seq<char>, Seq<char>)| #[trigger] pair_views(list@).contains(x) <==> (x == it || lb.contains(x)) by {
            let nv = pair_views(list@);
            if nv.contains(x) {
                let w = choose|w: int| 0 <= w < nv.len() && nv[w] == x;
                if w < pos {
                    assert(lb[w] == x);
                } else if w > pos {
                    assert(lb[w - 1] == x);
                }
            }
            if lb.contains(x) {
                let w = choose|w: int| 0 <= w < lb.len() && lb[w] == x;
                if w < pos {
                    assert(nv[w] == x);
                } else {
                    assert(nv[w + 1] == x);
                }
            }
            if x == it {
                assert(nv[pos] == x);
            }
        }
    }
    groups.put(p, list);
}

/// Work out each class's parent and mixins, filing each under its parent.
fn settle(entries: &StrMap<Entry>) -> (r: (StrMap<Entry>, StrMap<Vec<(String, String)>>, StrMap<Vec<(String, String)>>))
    ensures
        r.0.key_list() == entries.key_list(),
        forall|x: Seq<char>| #[trigger] entries.has(x) ==> settled(entries.key_list(), entries.value_of(x)@, r.0.value_of(x)@),
        children_ok(r.0, r.1),
        roots_ok(r.0, r.2),
{
    proof {
        use_type_invariant(entries);
    }
    let ghost keys = entries.key_list();
    let mut settled_entries: StrMap<Entry> = StrMap::new();
    let mut by_parent: StrMap<Vec<(String, String)>> = StrMap::new();
    let mut by_root: StrMap<Vec<(String, String)>> = StrMap::new();
    let n = entries.len();
    let mut i: usize = 0;
    while i < n
        invariant
            n == keys.len(),
            keys == entries.key_list(),
            entries.inv(),
            i <= n,
            settled_entries.key_list() == keys.take(i as int),
            settled_entries.value_list().len() == i,
            forall|q: int| 0 <= q < i ==> settled(keys, #[trigger] entries.value_list()[q]@, settled_entries.value_list()[q]@),
            forall|p: Seq<char>| #[trigger] by_parent.has(p) ==> {
                let list = pair_views(by_parent.value_of(p)@);
                &&& pairs_sorted(list)
                &&& forall|j: int| 0 <= j < list.len() ==> {
                    &&& (exists|q: int| 0 <= q < i && keys[q] == #[trigger] list[j].1)
                    &&& entries.has(list[j].1)
                    &&& list[j] == sort_key(*entries, list[j].1)
                    &&& parent_of(*entries, list[j].1) == ParentView::Class(p)
                }
            },
            forall|q: int| 0 <= q < i ==> (parent_of(*entries, #[trigger] keys[q]) matches ParentView::Class(p) ==> by_parent.has(p)
                && pair_views(by_parent.value_of(p)@).contains(sort_key(*entries, keys[q]))),
            forall|q: int| 0 <= q < i ==> (parent_of(*entries, #[trigger] keys[q]) matches ParentView::Outside(p) ==> by_root.has(p)
                && pair_views(by_root.value_of(p)@).contains(sort_key(*entries, keys[q]))),
            forall|p: Seq<char>| #[trigger] by_root.has(p) ==> {
                let list = pair_views(by_root.value_of(p)@);
                &&& list.len() > 0
                &&& pairs_sorted(list)
                &&& forall|j: int| 0 <= j < list.len() ==> {
                    &&& (exists|q: int| 0 <= q < i && keys[q] == #[trigger] list[j].1)
                    &&& entries.has(list[j].1)
                    &&& list[j] == sort_key(*entries, list[j].1)
                    &&& parent_of(*entries, list[j].1) == ParentView::Outside(p)
                }
            },
        decreases n - i,
    {
        let k = entries.key_at(i);
        let e = entries.value_at(i);
        let ghost kv = k@;
        proof {
            entries.lemma_index_of(i as int);
        }
        let (inside, outside) = split_bases(entries, &e.subject);
        let item = (e.subject.name.clone(), k.clone());
        proof {
            assert((item.0@, item.1@) == sort_key(*entries, kv));
            assert forall|q: int| 0 <= q < i implies #[trigger] keys[q] != kv by {
                assert(seq_lt(keys[q], keys[i as int]));
                lemma_lt_irreflexive(kv);
            }
        }
        let object = crate::text::owned("object");
        proof {
            reveal_strlit("object");
        }
        let ghost target_parent = parent_of(*entries, kv);
        if inside.len() > 0 && !crate::text::same(inside[0].as_str(), k.as_str()) {
            let p = inside[0].clone();
            assert(target_parent == ParentView::Class(p@));
            proof {
                assert forall|q: Seq<char>, j: int| #[trigger] by_parent.has(q) && 0 <= j < by_parent.value_of(q)@.len()
                    implies #[trigger] by_parent.value_of(q)@[j].1@ != item.1@ by {
                    assert(pair_views(by_parent.value_of(q)@)[j].1 == by_parent.value_of(q)@[j].1@);
                }
            }
            let ghost bp = by_parent;
            let ghost pv = p@;
            file_under(&mut by_parent, p, item);
            proof {
                assert forall|q: int| 0 <= q < i + 1 implies (parent_of(*entries, #[trigger] keys[q]) matches ParentView::Class(pp)
                    ==> by_parent.has(pp) && pair_views(by_parent.value_of(pp)@).contains(sort_key(*entries, keys[q]))) by {
                    if q == i {
                        assert(keys[q] == kv);
                    } else if let ParentView::Class(pp) = parent_of(*entries, keys[q]) {
                        if pp != pv {
                            assert(by_parent.value_of(pp) == bp.value_of(pp));
                        }
                    }
                }
                assert forall|q: int| 0 <= q < i + 1 implies (parent_of(*entries, #[trigger] keys[q]) matches ParentView::Outside(pp)
                    ==> by_root.has(pp) && pair_views(by_root.value_of(pp)@).contains(sort_key(*entries, keys[q]))) by {
                    if q == i {
                        assert(keys[q] == kv);
                    }
                }
                assert forall|pp: Seq<char>| #[trigger] by_parent.has(pp) implies ({
                    let list = pair_views(by_parent.value_of(pp)@);
                    &&& pairs_sorted(list)
                    &&& forall|j: int| 0 <= j < list.len() ==> {
                        &&& (exists|q: int| 0 <= q < i + 1 && keys[q] == #[trigger] list[j].1)
                        &&& entries.has(list[j].1)
                        &&& list[j] == sort_key(*entries, list[j].1)
                        &&& parent_of(*entries, list[j].1) == ParentView::Class(pp)
                    }
                }) by {
                    let list = pair_views(by_parent.value_of(pp)@);
                    assert forall|j: int| 0 <= j < list.len() implies {
                        &&& (exists|q: int| 0 <= q < i + 1 && keys[q] == #[trigger] list[j].1)
                        &&& entries.has(list[j].1)
                        &&& list[j] == sort_key(*entries, list[j].1)
                        &&& parent_of(*entries, list[j].1) == ParentView::Class(pp)
                    } by {
                        assert(list.contains(list[j]));
                        if list[j] != (item.0@, item.1@) {
                            let ol = pair_views(bp.value_of(pp)@);
                            assert(ol.contains(list[j]));
                            let w = choose|w: int| 0 <= w < ol.len() && ol[w] == list[j];
                            assert(ol[w].1 == list[j].1);
                        } else {
                            assert(keys[i as int] == list[j].1);
                        }
                    }
                }
            }
        } else {
            let name = if inside.len() > 0 {
                object
            } else if outside.len() > 0 {
                outside[0].clone()
            } else {
                object
            };
            assert(target_parent == ParentView::Outside(name@));
            proof {
                assert forall|q: Seq<char>, j: int| #[trigger] by_root.has(q) && 0 <= j < by_root.value_of(q)@.len()
                    implies #[trigger] by_root.value_of(q)@[j].1@ != item.1@ by {
                    assert(pair_views(by_root.value_of(q)@)[j].1 == by_root.value_of(q)@[j].1@);
                }
            }
            let ghost br = by_root;
            let ghost nv = name@;
            file_under(&mut by_root, name, item);
            proof {
                assert forall|q: int| 0 <= q < i + 1 implies (parent_of(*entries, #[trigger] keys[q]) matches ParentView::Outside(pp)
                    ==> by_root.has(pp) && pair_views(by_root.value_of(pp)@).contains(sort_key(*entries, keys[q]))) by {
                    if q == i {
                        assert(keys[q] == kv);
                        assert(pair_views(by_root.value_of(nv)@).contains((item.0@, item.1@)));
                    } else if let ParentView::Outside(pp) = parent_of(*entries, keys[q]) {
                        if pp != nv {
                            assert(by_root.value_of(pp) == br.value_of(pp));
                        } else {
                            assert(pair_views(by_root.value_of(nv)@).contains(sort_key(*entries, keys[q])));
                        }
                    }
                }
                assert forall|q: int| 0 <= q < i + 1 implies (parent_of(*entries, #[trigger] keys[q]) matches ParentView::Class(pp)
                    ==> by_parent.has(pp) && pair_views(by_parent.value_of(pp)@).contains(sort_key(*entries, keys[q]))) by {
                    if q == i {
                        assert(keys[q] == kv);
                    }
                }
                assert forall|pp: Seq<char>| #[trigger] by_root.has(pp) implies ({
                    let list = pair_views(by_root.value_of(pp)@);
                    &&& list.len() > 0
                    &&& pairs_sorted(list)
                    &&& forall|j: int| 0 <= j < list.len() ==> {
                        &&& (exists|q: int| 0 <= q < i + 1 && keys[q] == #[trigger] list[j].1)
                        &&& entries.has(list[j].1)
                        &&& list[j] == sort_key(*entries, list[j].1)
                        &&& parent_of(*entries, list[j].1) == ParentView::Outside(pp)
                    }
                }) by {
                    let list = pair_views(by_root.value_of(pp)@);
                    if pp == nv {
                        assert(list.contains((item.0@, item.1@)));
                    } else {
                        assert(by_root.value_of(pp) == br.value_of(pp));
                    }
                    assert forall|j: int| 0 <= j < list.len() implies {
                        &&& (exists|q: int| 0 <= q < i + 1 && keys[q] == #[trigger] list[j].1)
                        &&& entries.has(list[j].1)
                        &&& list[j] == sort_key(*entries, list[j].1)
                        &&& parent_of(*entries, list[j].1) == ParentView::Outside(pp)
                    } by {
                        assert(list.contains(list[j]));
                        if list[j] != (item.0@, item.1@) {
                            let ol = pair_views(br.value_of(pp)@);
                            assert(ol.contains(list[j]));
                            let w = choose|w: int| 0 <= w < ol.len() && ol[w] == list[j];
                            assert(ol[w].1 == list[j].1);
                        } else {
                            assert(keys[i as int] == list[j].1);
                        }
                    }
                }
            }
        }
        let mixins = mixins_of(&inside, &outside);
        let settled_entry = Entry {
            subject: e.subject.clone(),
            status: e.status,
            prior_bases: copy_names(&e.prior_bases),
            prior_module: copy_opt(&e.prior_module),
            gained: copy_names(&e.gained),
            lost: copy_names(&e.lost),
            mixins,
        };
        proof {
            assert(forall|j: int| 0 <= j < settled_entries.key_list().len() ==> seq_lt(
                #[trigger] settled_entries.key_list()[j],
                kv,
            )) by {
                assert forall|j: int| 0 <= j < settled_entries.key_list().len() implies seq_lt(
                    #[trigger] settled_entries.key_list()[j],
                    kv,
                ) by {
                    assert(settled_entries.key_list()[j] == keys[j]);
                }
            }
        }
        let ghost sb = settled_entries;
        settled_entries.push_last(k.clone(), settled_entry);
        proof {
            assert(keys.take(i + 1) =~= keys.take(i as int).push(kv));
            assert(entries.value_list()[i as int] == *e);
            assert forall|q: int| 0 <= q < i + 1 implies settled(keys, #[trigger] entries.value_list()[q]@, settled_entries.value_list()[q]@) by {
                if q < i {
                    assert(settled_entries.value_list()[q] == sb.value_list()[q]);
                }
            }
        }
        i = i + 1;
    }
    proof {
        use_type_invariant(&settled_entries);
        assert(keys.take(n as int) =~= keys);
        assert forall|x: Seq<char>| #[trigger] entries.has(x) implies settled(keys, entries.value_of(x)@, settled_entries.value_of(x)@) by {
            let q = choose|q: int| 0 <= q < keys.len() && keys[q] == x;
            entries.lemma_index_of(q);
            settled_entries.lemma_index_of(q);
        }
        assert forall|x: Seq<char>| #[trigger] entries.has(x) implies parent_of(settled_entries, x) == parent_of(*entries, x)
            && sort_key(settled_entries, x) == sort_key(*entries, x) by {
            let q = choose|q: int| 0 <= q < keys.len() && keys[q] == x;
            entries.lemma_index_of(q);
            settled_entries.lemma_index_of(q);
        }
        assert forall|c: Seq<char>| #[trigger] settled_entries.has(c) implies (parent_of(settled_entries, c) matches ParentView::Class(pp)
            ==> by_parent.has(pp) && pair_views(by_parent.value_of(pp)@).contains(sort_key(settled_entries, c))) by {
            assert(settled_entries.key_list() == keys);
            assert(entries.has(c));
            let q = choose|q: int| 0 <= q < keys.len() && keys[q] == c;
            assert(parent_of(*entries, keys[q]) == parent_of(settled_entries, c));
        }
        assert forall|c: Seq<char>| #[trigger] settled_entries.has(c) implies (parent_of(settled_entries, c) matches ParentView::Outside(pp)
            ==> by_root.has(pp) && pair_views(by_root.value_of(pp)@).contains(sort_key(settled_entries, c))) by {
            assert(settled_entries.key_list() == keys);
            assert(entries.has(c));
            let q = choose|q: int| 0 <= q < keys.len() && keys[q] == c;
            assert(parent_of(*entries, keys[q]) == parent_of(settled_entries, c));
        }
    }
    (settled_entries, by_parent, by_root)
}

/// A root: a name outside the package, drawing the classes under it.
pub open spec fn root_ok(entries: StrMap<Entry>, r: TreeNode) -> bool {
    &&& r.key is External
    &&& r.label@ == node_id(r)
    &&& r.edge == Edge::Live
    &&& !r.repeat
    &&& r.note is None
    &&& r.touched == exists|t: int| 0 <= t < r.children@.len() && (#[trigger] r.children@[t]).touched
    &&& forall|t: int| 0 <= t < r.children@.len() ==> grown(#[trigger] r.children@[t], entries)
}

/// `x` is drawn as one of the children of `r`.
pub open spec fn drawn_under(r: TreeNode, x: Seq<char>) -> bool {
    exists|u: int| 0 <= u < r.children@.len() && node_id(#[trigger] r.children@[u]) == x
}

/// Below the class a grown tree draws, every class hangs off a class.
proof fn lemma_grown_keys(g: TreeNode, entries: StrMap<Entry>)
    requires
        grown(g, entries),
    ensures
        forall|x: Seq<char>| #[trigger] class_keys(g).contains(x) ==> x == node_id(g) || parent_of(entries, x) is Class,
    decreases g, 1int, 0int,
{
    lemma_grown_kids_keys(g, 0, entries);
    assert forall|x: Seq<char>| #[trigger] class_keys(g).contains(x) implies x == node_id(g) || parent_of(entries, x) is Class by {
        vstd::seq_lib::lemma_seq_concat_contains_all_elements(seq![node_id(g)], class_keys_kids(g, 0), x);
    }
}

proof fn lemma_grown_kids_keys(g: TreeNode, i: int, entries: StrMap<Entry>)
    requires
        grown_kids(g, i, entries),
    ensures
        forall|x: Seq<char>| #[trigger] class_keys_kids(g, i).contains(x) ==> parent_of(entries, x) is Class,
    decreases g, 0int, g.children@.len() - i,
{
    if 0 <= i < g.children@.len() {
        let kid = g.children@[i];
        lemma_grown_keys(kid, entries);
        lemma_grown_kids_keys(g, i + 1, entries);
        assert forall|x: Seq<char>| #[trigger] class_keys_kids(g, i).contains(x) implies parent_of(entries, x) is Class by {
            vstd::seq_lib::lemma_seq_concat_contains_all_elements(class_keys(kid), class_keys_kids(g, i + 1), x);
        }
    }
}

/// In a list of grown trees, a class that hangs off no class is the class of
/// one of the trees.
proof fn lemma_list_keys(ks: Seq<TreeNode>, i: int, entries: StrMap<Entry>)
    requires
        0 <= i,
        forall|t: int| 0 <= t < ks.len() ==> grown(#[trigger] ks[t], entries),
    ensures
        forall|x: Seq<char>| #[trigger] class_keys_in(ks, i).contains(x) ==> parent_of(entries, x) is Class || exists|t: int|
            i <= t < ks.len() && node_id(#[trigger] ks[t]) == x,
    decreases ks.len() - i,
{
    if i < ks.len() {
        lemma_list_keys(ks, i + 1, entries);
        lemma_grown_keys(ks[i], entries);
        assert forall|x: Seq<char>| #[trigger] class_keys_in(ks, i).contains(x) implies parent_of(entries, x) is Class
            || exists|t: int| i <= t < ks.len() && node_id(#[trigger] ks[t]) == x by {
            vstd::seq_lib::lemma_seq_concat_contains_all_elements(class_keys(ks[i]), class_keys_in(ks, i + 1), x);
            if class_keys_in(ks, i + 1).contains(x) && !(parent_of(entries, x) is Class) {
                let t = choose|t: int| i + 1 <= t < ks.len() && node_id(#[trigger] ks[t]) == x;
                assert(i <= t < ks.len() && node_id(ks[t]) == x);
            }
        }
    }
}

/// Under a list of outside roots, a class whose parent is outside the package
/// is drawn under the root named for that parent.
proof fn lemma_roots_keys(rs: Seq<TreeNode>, i: int, entries: StrMap<Entry>)
    requires
        0 <= i,
        forall|t: int| 0 <= t < rs.len() ==> outside_root_ok(entries, #[trigger] rs[t]),
    ensures
        forall|x: Seq<char>| #[trigger] class_keys_in(rs, i).contains(x) && parent_of(entries, x) is Outside ==> exists|t: int|
            i <= t < rs.len() && node_id(#[trigger] rs[t]) == parent_of(entries, x)->Outside_0 && drawn_under(rs[t], x),
    decreases rs.len() - i,
{
    if i < rs.len() {
        lemma_roots_keys(rs, i + 1, entries);
        let r = rs[i];
        assert(outside_root_ok(entries, r));
        assert(class_keys(r) == class_keys_kids(r, 0));
        lemma_class_keys_kids(r, 0);
        lemma_list_keys(r.children@, 0, entries);
        assert forall|x: Seq<char>| #[trigger] class_keys_in(rs, i).contains(x) && parent_of(entries, x) is Outside implies exists|t: int|
            i <= t < rs.len() && node_id(#[trigger] rs[t]) == parent_of(entries, x)->Outside_0 && drawn_under(rs[t], x) by {
            vstd::seq_lib::lemma_seq_concat_contains_all_elements(class_keys(r), class_keys_in(rs, i + 1), x);
            if class_keys(r).contains(x) {
                let u = choose|u: int| 0 <= u < r.children@.len() && node_id(#[trigger] r.children@[u]) == x;
                assert(parent_of(entries, node_id(r.children@[u])) == ParentView::Outside(node_id(r)));
                assert(drawn_under(rs[i], x));
            } else {
                let t = choose|t: int| i + 1 <= t < rs.len() && node_id(#[trigger] rs[t]) == parent_of(entries, x)->Outside_0 && drawn_under(rs[t], x);
                assert(i <= t);
            }
        }
    }
}

/// The root drawn for the `e`-th outside name, after the roots before it:
/// every class whose parent is that name is drawn directly under it.
proof fn lemma_new_root(
    entries: StrMap<Entry>,
    by_root: StrMap<Vec<(String, String)>>,
    e: int,
    before: Seq<TreeNode>,
    pre: StrMap<()>,
    after: StrMap<()>,
    kids: Seq<TreeNode>,
    nv: TreeNode,
)
    requires
        roots_ok(entries, by_root),
        by_root.inv(),
        0 <= e < by_root.key_list().len(),
        before.len() == e,
        forall|t: int| 0 <= t < e ==> outside_root_ok(entries, #[trigger] before[t]),
        forall|t: int| 0 <= t < e ==> node_id(#[trigger] before[t]) == by_root.key_list()[t],
        forall|x: Seq<char>| #[trigger] pre.has(x) <==> class_keys_in(before, 0).contains(x),
        forall|x: Seq<char>| #[trigger] after.has(x) <==> (pre.has(x) || class_keys_in(kids, 0).contains(x)),
        forall|j: int| 0 <= j < by_root.value_of(by_root.key_list()[e])@.len() ==> after.has(
            #[trigger] pair_views(by_root.value_of(by_root.key_list()[e])@)[j].1,
        ),
        forall|t: int| 0 <= t < kids.len() ==> grown(#[trigger] kids[t], entries),
        nv.children@ == kids,
        node_id(nv) == by_root.key_list()[e],
    ensures
        forall|x: Seq<char>| entries.has(x) && #[trigger] parent_of(entries, x) == ParentView::Outside(by_root.key_list()[e])
            ==> after.has(x) && drawn_under(nv, x),
        nv.children@.len() > 0,
{
    let nm = by_root.key_list()[e];
    let lv = pair_views(by_root.value_of(nm)@);
    assert(by_root.has(nm));
    assert forall|x: Seq<char>| entries.has(x) && #[trigger] parent_of(entries, x) == ParentView::Outside(nm) implies after.has(x)
        && drawn_under(nv, x) by {
        assert(lv.contains(sort_key(entries, x)));
        let j = choose|j: int| 0 <= j < lv.len() && lv[j] == sort_key(entries, x);
        assert(lv[j].1 == x);
        assert(after.has(lv[j].1));
        if pre.has(x) {
            lemma_roots_keys(before, 0, entries);
            let t = choose|t: int| 0 <= t < before.len() && node_id(#[trigger] before[t]) == parent_of(entries, x)->Outside_0
                && drawn_under(before[t], x);
            assert(node_id(before[t]) == by_root.key_list()[t]);
            assert(seq_lt(by_root.key_list()[t], by_root.key_list()[e]));
            lemma_lt_irreflexive(nm);
        }
        assert(class_keys_in(kids, 0).contains(x));
        lemma_list_keys(kids, 0, entries);
        let t = choose|t: int| 0 <= t < kids.len() && node_id(#[trigger] kids[t]) == x;
        assert(nv.children@[t] == kids[t]);
    }
    assert(lv.len() > 0);
    assert(lv[0] == lv[0]);
    assert(parent_of(entries, lv[0].1) == ParentView::Outside(nm));
    assert(drawn_under(nv, lv[0].1));
}

/// A root whose classes all name it as their parent, drawn in order.
pub open spec fn outside_root_ok(entries: StrMap<Entry>, r: TreeNode) -> bool {
    &&& root_ok(entries, r)
    &&& forall|t: int| 0 <= t < r.children@.len() ==> parent_of(entries, node_id(#[trigger] r.children@[t]))
        == ParentView::Outside(node_id(r))
    &&& forall|t: int| 0 <= t < r.children@.len() - 1 ==> pair_lt(
        sort_key(entries, node_id(#[trigger] r.children@[t])),
        sort_key(entries, node_id(r.children@[t + 1])),
    )
}

/// The first `m` roots are outside names in order, each drawing at least one
/// class, and every class whose parent is outside the package is drawn
/// directly under the root named for that parent. After them at most one
/// `<cycle>` root holds what no outside root reaches: classes that each hang
/// off a class.
pub open spec fn roots_split(entries: StrMap<Entry>, roots: Seq<TreeNode>, m: int) -> bool {
    &&& 0 <= m <= roots.len()
    &&& forall|t: int| 0 <= t < m ==> outside_root_ok(entries, #[trigger] roots[t])
    &&& forall|t: int| 0 <= t < m ==> (#[trigger] roots[t]).children@.len() > 0
    &&& forall|a: int, b: int| 0 <= a < b < m ==> seq_lt(node_id(#[trigger] roots[a]), node_id(#[trigger] roots[b]))
    &&& forall|x: Seq<char>| entries.has(x) && (#[trigger] parent_of(entries, x)) is Outside ==> exists|t: int|
        0 <= t < m && node_id(#[trigger] roots[t]) == parent_of(entries, x)->Outside_0 && drawn_under(roots[t], x)
    &&& m < roots.len() ==> {
        &&& roots.len() == m + 1
        &&& node_id(roots[m]) == "<cycle>"@
        &&& root_ok(entries, roots[m])
        &&& roots[m].children@.len() > 0
        &&& forall|t: int| 0 <= t < roots[m].children@.len() ==> parent_of(entries, node_id(#[trigger] roots[m].children@[t])) is Class
        &&& cycle_ordered(entries, roots, m)
    }
}

/// The `<cycle>` root at position `m` takes its classes in key order: by the
/// time each of its children is drawn, every class that no outside root
/// reached and whose key comes before the child's has been drawn already.
pub open spec fn cycle_ordered(entries: StrMap<Entry>, roots: Seq<TreeNode>, m: int) -> bool {
    let c = roots[m];
    let out = class_keys_in(roots.take(m), 0).to_set();
    forall|t: int, x: Seq<char>|
        0 <= t < c.children@.len() && entries.has(x) && !out.contains(x) && #[trigger] seq_lt(x, node_id(c.children@[t]))
            ==> (out + class_keys_in(c.children@.take(t), 0).to_set()).contains(x)
}

/// The forest draws every class exactly once, each under its own parent
/// wherever a root outside the package reaches it, and each where it is first
/// reached when the forest is drawn in order.
pub open spec fn forest_ok(entries: StrMap<Entry>, roots: Seq<TreeNode>) -> bool {
    &&& class_keys_in(roots, 0).no_duplicates()
    &&& reached_first_roots(roots, 0, entries, Set::empty())
    &&& forall|x: Seq<char>| #[trigger] class_keys_in(roots, 0).contains(x) <==> entries.has(x)
    &&& exists|m: int| roots_split(entries, roots, m)
}

/// A root node named `name` over `kids`.
pub(crate) fn root(name: String, kids: Vec<TreeNode>) -> (r: TreeNode)
    ensures
        r.key == NodeKey::External(name),
        r.label@ == name@,
        r.children@ == kids@,
        r.edge == Edge::Live,
        !r.repeat,
        r.note is None,
        r.touched == exists|t: int| 0 <= t < kids@.len() && (#[trigger] kids@[t]).touched,
{
    let mut any = false;
    let mut i: usize = 0;
    while i < kids.len()
        invariant
            i <= kids.len(),
            any == exists|t: int| 0 <= t < i && (#[trigger] kids@[t]).touched,
        decreases kids.len() - i,
    {
        if kids[i].touched {
            any = true;
        }
        i = i + 1;
    }
    let label = name.clone();
    let mut node = TreeNode::new(NodeKey::External(name), label);
    node.touched = any;
    node.children = kids;
    node
}

/// Lay the forest out: one root per outside name, in name order, each class
/// below the class it hangs off; whatever no root reaches sits in a cycle and
/// is surfaced under `<cycle>` rather than dropped.
fn build_forest(
    entries: &StrMap<Entry>,
    by_parent: &StrMap<Vec<(String, String)>>,
    by_root: &StrMap<Vec<(String, String)>>,
) -> (roots: Vec<TreeNode>)
    requires
        children_ok(*entries, *by_parent),
        roots_ok(*entries, *by_root),
    ensures
        forest_ok(*entries, roots@),
{
    broadcast use vstd::seq_lib::lemma_seq_concat_contains_all_elements;
    proof {
        use_type_invariant(by_root);
    }
    let mut placed: StrMap<()> = StrMap::new();
    let mut roots: Vec<TreeNode> = Vec::new();
    let n = by_root.len();
    let mut e: usize = 0;
    while e < n
        invariant
            reached_first_roots(roots@, 0, *entries, Set::empty()),
            n == by_root.key_list().len(),
            by_root.inv(),
            children_ok(*entries, *by_parent),
            roots_ok(*entries, *by_root),
            e <= n,
            roots.len() == e,
            forall|x: Seq<char>| #[trigger] placed.has(x) ==> entries.has(x),
            forall|x: Seq<char>| #[trigger] placed.has(x) <==> class_keys_in(roots@, 0).contains(x),
            class_keys_in(roots@, 0).no_duplicates(),
            forall|t: int| 0 <= t < e ==> outside_root_ok(*entries, #[trigger] roots@[t]),
            forall|t: int| 0 <= t < e ==> node_id(#[trigger] roots@[t]) == by_root.key_list()[t],
            forall|t: int| 0 <= t < e ==> (#[trigger] roots@[t]).children@.len() > 0,
            forall|t: int, x: Seq<char>| 0 <= t < e && entries.has(x) && #[trigger] parent_of(*entries, x) == ParentView::Outside(
                #[trigger] by_root.key_list()[t],
            ) ==> placed.has(x) && drawn_under(roots@[t], x),
        decreases n - e,
    {
        let name = by_root.key_at(e);
        let list = by_root.value_at(e);
        let ghost nm = name@;
        proof {
            by_root.lemma_index_of(e as int);
            assert(by_root.has(nm));
        }
        let ghost pre = placed;
        let ghost before = roots@;
        let kids = grow_list(list, entries, by_parent, &mut placed);
        let node = root(name.clone(), kids);
        let ghost nv = node;
        proof {
            let lv = pair_views(list@);
            assert(class_keys(nv) == class_keys_kids(nv, 0));
            lemma_class_keys_kids(nv, 0);
            assert forall|t: int| 0 <= t < nv.children@.len() implies parent_of(*entries, node_id(#[trigger] nv.children@[t]))
                == ParentView::Outside(node_id(nv)) by {
                assert(grown(kids@[t], *entries));
                let q = choose|q: int| 0 <= q < list.len() && lv[q].1 == node_id(kids@[t]);
                assert(entries.has(lv[q].1));
            }
            assert(list@ == by_root.value_of(nm)@);
            lemma_new_root(*entries, *by_root, e as int, before, pre, placed, kids@, nv);
            lemma_class_keys_push(before, nv, 0);
            let bk = class_keys_in(before, 0);
            let nk = class_keys(nv);
            assert forall|a: int, b: int| 0 <= a < bk.len() && 0 <= b < nk.len() implies bk[a] != nk[b] by {
                assert(bk.contains(bk[a]));
                assert(nk.contains(nk[b]));
                assert(pre.has(bk[a]));
            }
            vstd::seq_lib::lemma_no_dup_in_concat(bk, nk);
        }
        roots.push(node);
        proof {
            assert(roots@ == before.push(nv));
            assert(placed_set(pre) =~= Set::<Seq<char>>::empty() + class_keys_in(before, 0).to_set());
            lemma_reached_first_roots_push(before, nv, 0, *entries, Set::empty());
            assert forall|x: Seq<char>| #[trigger] placed.has(x) <==> class_keys_in(roots@, 0).contains(x) by {
                vstd::seq_lib::lemma_seq_concat_contains_all_elements(class_keys_in(before, 0), class_keys(nv), x);
            }
            assert forall|t: int| 0 <= t < e + 1 implies outside_root_ok(*entries, #[trigger] roots@[t]) by {
                if t < e {
                    assert(roots@[t] == before[t]);
                }
            }
            assert forall|t: int| 0 <= t < e + 1 implies node_id(#[trigger] roots@[t]) == by_root.key_list()[t] by {
                if t < e {
                    assert(roots@[t] == before[t]);
                }
            }
            assert forall|t: int| 0 <= t < e + 1 implies (#[trigger] roots@[t]).children@.len() > 0 by {
                if t < e {
                    assert(roots@[t] == before[t]);
                }
            }
            assert forall|t: int, x: Seq<char>| 0 <= t < e + 1 && entries.has(x) && #[trigger] parent_of(*entries, x)
                == ParentView::Outside(#[trigger] by_root.key_list()[t]) implies placed.has(x) && drawn_under(roots@[t], x) by {
                if t < e {
                    assert(roots@[t] == before[t]);
                    assert(pre.has(x));
                } else {
                    assert(roots@[t] == nv);
                }
            }
        }
        e = e + 1;
    }
    // Whatever no outside root reached.
    let mut stranded: Vec<(String, String)> = Vec::new();
    let m = entries.len();
    let mut i: usize = 0;
    while i < m
        invariant
            m == entries.key_list().len(),
            entries.inv(),
            i <= m,
            forall|j: int| 0 <= j < stranded.len() ==> entries.has(#[trigger] pair_views(stranded@)[j].1)
                && pair_views(stranded@)[j] == sort_key(*entries, pair_views(stranded@)[j].1),
            forall|q: int| 0 <= q < i ==> placed.has(#[trigger] entries.key_list()[q]) || pair_views(
                stranded@,
            ).contains((sort_key(*entries, entries.key_list()[q]))),
            stranded.len() > 0 ==> !placed.has(pair_views(stranded@)[0].1),
            forall|j: int| 0 <= j < stranded.len() ==> !placed.has(#[trigger] pair_views(stranded@)[j].1),
            forall|a: int| 0 <= a < stranded.len() ==> exists|q: int| 0 <= q < i && entries.key_list()[q] == #[trigger] pair_views(stranded@)[a].1,
            forall|a: int, b: int| 0 <= a < b < stranded.len() ==> seq_lt(#[trigger] pair_views(stranded@)[a].1, #[trigger] pair_views(stranded@)[b].1),
        decreases m - i,
    {
        let k = entries.key_at(i);
        let v = entries.value_at(i);
        proof {
            entries.lemma_index_of(i as int);
        }
        let ghost sb = pair_views(stranded@);
        if !placed.contains_key(k.as_str()) {
            stranded.push((v.subject.name.clone(), k.clone()));
            proof {
                assert(pair_views(stranded@) =~= sb.push((v.subject.name@, k@)));
                lemma_push_contains(sb, (v.subject.name@, k@));
                let sv = pair_views(stranded@);
                assert forall|a: int| 0 <= a < stranded.len() implies exists|q: int| 0 <= q < i + 1 && entries.key_list()[q] == #[trigger] sv[a].1 by {
                    if a == sb.len() {
                        assert(entries.key_list()[i as int] == sv[a].1);
                    } else {
                        assert(sv[a] == sb[a]);
                    }
                }
                assert forall|a: int, b: int| 0 <= a < b < stranded.len() implies seq_lt(#[trigger] sv[a].1, #[trigger] sv[b].1) by {
                    if b == sb.len() {
                        assert(sv[a] == sb[a]);
                        let q = choose|q: int| 0 <= q < i && entries.key_list()[q] == sb[a].1;
                        assert(seq_lt(entries.key_list()[q], entries.key_list()[i as int]));
                    } else {
                        assert(sv[a] == sb[a] && sv[b] == sb[b]);
                    }
                }
            }
        }
        i = i + 1;
    }
    let ghost kept = roots@;
    let ghost pre = placed;
    if stranded.len() > 0 {
        let kids = grow_list(&stranded, entries, by_parent, &mut placed);
        let cycle = crate::text::owned("<cycle>");
        proof {
            reveal_strlit("<cycle>");
        }
        let node = root(cycle, kids);
        let ghost nv = node;
        proof {
            assert(class_keys(nv) == class_keys_kids(nv, 0));
            lemma_class_keys_kids(nv, 0);
            lemma_class_keys_push(kept, nv, 0);
            let bk = class_keys_in(kept, 0);
            let nk = class_keys(nv);
            assert forall|a: int, b: int| 0 <= a < bk.len() && 0 <= b < nk.len() implies bk[a] != nk[b] by {
                assert(bk.contains(bk[a]));
                assert(nk.contains(nk[b]));
                assert(pre.has(bk[a]));
            }
            vstd::seq_lib::lemma_no_dup_in_concat(bk, nk);
        }
        roots.push(node);
        proof {
            assert(roots@ == kept.push(nv));
            assert(placed_set(pre) =~= Set::<Seq<char>>::empty() + class_keys_in(kept, 0).to_set());
            lemma_reached_first_roots_push(kept, nv, 0, *entries, Set::empty());
            assert(roots@.take(n as int) =~= kept);
            let sv = pair_views(stranded@);
            assert forall|t: int, x: Seq<char>|
                0 <= t < nv.children@.len() && entries.has(x) && !class_keys_in(roots@.take(n as int), 0).to_set().contains(x)
                    && #[trigger] seq_lt(x, node_id(nv.children@[t])) implies (class_keys_in(roots@.take(n as int), 0).to_set()
                    + class_keys_in(nv.children@.take(t), 0).to_set()).contains(x) by {
                assert(nv.children@ == kids@);
                assert(!pre.has(x));
                let q = choose|q: int| 0 <= q < sv.len() && sv[q].1 == node_id(#[trigger] kids@[t]) && forall|r: int|
                    0 <= r < q ==> (placed_set(pre) + class_keys_in(kids@.take(t), 0).to_set()).contains(#[trigger] sv[r].1);
                let qx = choose|qx: int| 0 <= qx < m && entries.key_list()[qx] == x;
                assert(sv.contains(sort_key(*entries, entries.key_list()[qx])));
                let w = choose|w: int| 0 <= w < sv.len() && sv[w] == sort_key(*entries, entries.key_list()[qx]);
                assert(sv[w].1 == x);
                if w >= q {
                    if w == q {
                        lemma_lt_irreflexive(x);
                    } else {
                        assert(seq_lt(sv[q].1, sv[w].1));
                        crate::text::lemma_lt_asymmetric(x, node_id(kids@[t]));
                    }
                }
                assert((placed_set(pre) + class_keys_in(kids@.take(t), 0).to_set()).contains(sv[w].1));
            }
            assert forall|x: Seq<char>| #[trigger] placed.has(x) <==> class_keys_in(roots@, 0).contains(x) by {
                vstd::seq_lib::lemma_seq_concat_contains_all_elements(class_keys_in(kept, 0), class_keys(nv), x);
            }
            assert forall|x: Seq<char>| #[trigger] entries.has(x) implies placed.has(x) by {
                let q = choose|q: int| 0 <= q < m && entries.key_list()[q] == x;
                if !pre.has(entries.key_list()[q]) {
                    let sv = pair_views(stranded@);
                    let w = choose|w: int| 0 <= w < sv.len() && sv[w] == sort_key(*entries, entries.key_list()[q]);
                    assert(placed.has(sv[w].1));
                }
            }
            assert(roots_split(*entries, roots@, n as int)) by {
                assert forall|t: int| 0 <= t < n implies outside_root_ok(*entries, #[trigger] roots@[t]) by {
                    assert(roots@[t] == kept[t]);
                }
                assert forall|a: int, b: int| 0 <= a < b < n implies seq_lt(node_id(#[trigger] roots@[a]), node_id(#[trigger] roots@[b])) by {
                    assert(roots@[a] == kept[a]);
                    assert(roots@[b] == kept[b]);
                }
                assert forall|t: int| 0 <= t < n implies (#[trigger] roots@[t]).children@.len() > 0 by {
                    assert(roots@[t] == kept[t]);
                }
                assert forall|x: Seq<char>| entries.has(x) && (#[trigger] parent_of(*entries, x)) is Outside implies exists|t: int|
                    0 <= t < n && node_id(#[trigger] roots@[t]) == parent_of(*entries, x)->Outside_0 && drawn_under(roots@[t], x) by {
                    let p = parent_of(*entries, x)->Outside_0;
                    assert(by_root.has(p));
                    let t = choose|t: int| 0 <= t < by_root.key_list().len() && by_root.key_list()[t] == p;
                    assert(parent_of(*entries, x) == ParentView::Outside(by_root.key_list()[t]));
                    assert(roots@[t] == kept[t]);
                }
                assert forall|t: int| 0 <= t < nv.children@.len() implies parent_of(*entries, node_id(#[trigger] nv.children@[t])) is Class by {
                    let c = node_id(kids@[t]);
                    assert(nv.children@[t] == kids@[t]);
                    assert(grown(kids@[t], *entries));
                    let sv = pair_views(stranded@);
                    let j = choose|j: int| 0 <= j < stranded.len() && sv[j].1 == c;
                    assert(!pre.has(sv[j].1));
                    if parent_of(*entries, c) is Outside {
                        let p = parent_of(*entries, c)->Outside_0;
                        assert(by_root.has(p));
                        let t2 = choose|t2: int| 0 <= t2 < by_root.key_list().len() && by_root.key_list()[t2] == p;
                        assert(parent_of(*entries, c) == ParentView::Outside(by_root.key_list()[t2]));
                    }
                }
                assert(roots@[n as int] == nv);
            }
        }
    } else {
        proof {
            assert forall|x: Seq<char>| #[trigger] entries.has(x) implies placed.has(x) by {
                let q = choose|q: int| 0 <= q < m && entries.key_list()[q] == x;
                assert(placed.has(entries.key_list()[q]) || pair_views(stranded@).contains(sort_key(*entries, entries.key_list()[q])));
            }
            assert forall|x: Seq<char>| entries.has(x) && (#[trigger] parent_of(*entries, x)) is Outside implies exists|t: int|
                0 <= t < n && node_id(#[trigger] roots@[t]) == parent_of(*entries, x)->Outside_0 && drawn_under(roots@[t], x) by {
                let p = parent_of(*entries, x)->Outside_0;
                assert(by_root.has(p));
                let t = choose|t: int| 0 <= t < by_root.key_list().len() && by_root.key_list()[t] == p;
                assert(parent_of(*entries, x) == ParentView::Outside(by_root.key_list()[t]));
            }
            assert(roots_split(*entries, roots@, n as int));
        }
    }
    proof {
        assert forall|x: Seq<char>| #[trigger] class_keys_in(roots@, 0).contains(x) implies entries.has(x) by {
            assert(placed.has(x));
        }
    }
    roots
}

/// What the feed orders each entry by: its status, its qualified name, its key.
pub open spec fn feed_items(entries: StrMap<Entry>) -> Seq<(Status, (Seq<char>, Seq<char>))> {
    Seq::new(
        entries.key_list().len(),
        |i: int| (entries.value_list()[i].status, (entries.value_list()[i].subject.qualname@, entries.key_list()[i])),
    )
}

/// The positions of the entries the feed lists, in the order it lists them.
pub open spec fn feed_seq(entries: StrMap<Entry>) -> Seq<int> {
    feed_by_name(feed_items(entries))
}

/// The statuses of the entries, in key order.
pub open spec fn statuses(entries: StrMap<Entry>) -> Seq<Status> {
    entries.value_list().map_values(|e: Entry| e.status)
}

/// Tally the statuses of every entry.
fn count(entries: &StrMap<Entry>) -> (c: Counts)
    ensures
        crate::sitrep::counts_of(c, statuses(*entries)),
{
    let ghost ss = statuses(*entries);
    let mut c = Counts::zero();
    let n = entries.len();
    let mut i: usize = 0;
    assert(ss.take(0) =~= Seq::<Status>::empty());
    while i < n
        invariant
            n == entries.value_list().len(),
            ss == statuses(*entries),
            i <= n,
            crate::sitrep::counts_of(c, ss.take(i as int)),
        decreases n - i,
    {
        let st = entries.value_at(i).status;
        crate::sitrep::record_into(&mut c, Ghost(ss.take(i as int)), st);
        assert(ss.take(i + 1) =~= ss.take(i as int).push(st));
        i = i + 1;
    }
    assert(ss.take(n as int) =~= ss);
    c
}

/// Both snapshots compared, class by class, and laid out as a forest.
#[derive(Debug)]
pub struct Structure {
    pub entries: StrMap<Entry>,
    pub roots: Vec<TreeNode>,
    pub counts: Counts,
}

impl Default for Structure {
    fn default() -> (s: Self)
        ensures
            s.entries.key_list().len() == 0,
            s.roots@.len() == 0,
            s.counts == Counts::zero_spec(),
    {
        Structure { entries: StrMap::new(), roots: Vec::new(), counts: Counts::zero() }
    }
}

/// What the structure view compiled from two snapshots holds: one entry per
/// class in either, each with its status and mixins, the counts of those
/// statuses, and the forest drawing every class once.
pub open spec fn compiled(baseline: Dossier, current: Dossier, s: Structure) -> bool {
    &&& forall|x: Seq<char>| #[trigger] s.entries.has(x) <==> listed(baseline.subjects, current.subjects, x)
    &&& forall|x: Seq<char>| #[trigger] s.entries.has(x) ==> entry_ok(
        baseline.subjects,
        current.subjects,
        x,
        s.entries.value_of(x)@,
    )
    &&& forall|x: Seq<char>| #[trigger] s.entries.has(x) ==> s.entries.value_of(x)@.mixins == spec_mixins(
        s.entries.key_list(),
        s.entries.value_of(x)@.subject,
    )
    &&& crate::sitrep::counts_of(s.counts, statuses(s.entries))
    &&& forest_ok(s.entries, s.roots@)
}

impl Structure {
    /// Compare the classes of two snapshots: each class gets a status, moved
    /// classes are folded into one entry, and the whole is laid out as a
    /// forest in which every class appears exactly once.
    pub fn compile(baseline: &Dossier, current: &Dossier) -> (s: Structure)
        ensures
            compiled(*baseline, *current, s),
    {
        let b = &baseline.subjects;
        let c = &current.subjects;
        let mut first = first_pass(b, c);
        pair_relocations(b, c, &mut first);
        let (entries, by_parent, by_root) = settle(&first);
        proof {
            assert forall|x: Seq<char>| #[trigger] entries.has(x) <==> first.has(x) by {}
            assert forall|x: Seq<char>| #[trigger] entries.has(x) implies entry_ok(*b, *c, x, entries.value_of(x)@) by {
                assert(first.has(x));
                assert(settled(first.key_list(), first.value_of(x)@, entries.value_of(x)@));
            }
        }
        let roots = build_forest(&entries, &by_parent, &by_root);
        let counts = count(&entries);
        Structure { entries, roots, counts }
    }

    /// The forest as drawable rows.
    pub fn rows(&self, changes_only: bool) -> (r: Vec<Row<'_>>)
        ensures
            r@.map_values(|w: Row| row_view(w)) == rows_of_roots(self.roots@, 0, changes_only),
    {
        flatten(self.roots.as_slice(), changes_only)
    }

    /// Changed entries, ordered for the feed: most disruptive status first,
    /// then by qualified name.
    pub fn feed(&self) -> (f: Vec<&Entry>)
        ensures
            is_feed(feed_items(self.entries), feed_seq(self.entries)),
            f@.len() == feed_seq(self.entries).len(),
            forall|t: int| 0 <= t < f@.len() ==> *f@[t] == self.entries.value_list()[#[trigger] feed_seq(self.entries)[t]],
    {
        proof {
            use_type_invariant(&self.entries);
        }
        let ghost items_v = feed_items(self.entries);
        let n = self.entries.len();
        let mut items: Vec<(Status, (String, String))> = Vec::new();
        let mut i: usize = 0;
        while i < n
            invariant
                n == self.entries.key_list().len(),
                self.entries.inv(),
                items_v == feed_items(self.entries),
                i <= n,
                item_views(items@) == items_v.take(i as int),
            decreases n - i,
        {
            let e = self.entries.value_at(i);
            let name = e.subject.qualname.clone();
            let key = self.entries.key_at(i).clone();
            let ghost before = items@;
            items.push((e.status, (name, key)));
            proof {
                assert(item_views(items@) =~= item_views(before).push(items_v[i as int]));
                assert(items_v.take(i + 1) =~= items_v.take(i as int).push(items_v[i as int]));
            }
            i = i + 1;
        }
        proof {
            assert(items_v.take(n as int) =~= items_v);
            assert forall|a: int, b: int| 0 <= a < b < items_v.len() implies seq_lt(#[trigger] items_v[a].1.1, #[trigger] items_v[b].1.1) by {
                assert(items_v[a].1.1 == self.entries.key_list()[a]);
                assert(items_v[b].1.1 == self.entries.key_list()[b]);
            }
        }
        let idx = feed_positions(&items);
        let ghost order = positions(idx@);
        proof {
            lemma_is_feed(items_v, order);
        }
        let mut f: Vec<&Entry> = Vec::new();
        let mut t: usize = 0;
        while t < idx.len()
            invariant
                order == positions(idx@),
                order == feed_seq(self.entries),
                is_feed(items_v, order),
                items_v == feed_items(self.entries),
                self.entries.inv(),
                t <= idx.len(),
                f@.len() == t,
                forall|u: int| 0 <= u < t ==> *f@[u] == self.entries.value_list()[#[trigger] order[u]],
            decreases idx.len() - t,
        {
            proof {
                assert(order[t as int] == idx@[t as int] as int);
                assert(0 <= order[t as int] < items_v.len());
            }
            let e = self.entries.value_at(idx[t]);
            f.push(e);
            t = t + 1;
        }
        f
    }
}

} // verus!
