//! The traffic view: who calls whom, and how that changed. Call resolution is
//! best-effort — Python dispatches at runtime — so every edge carries a
//! confidence, and unresolved calls are counted as traffic leaving the package
//! rather than guessed at.

use vstd::prelude::*;

use crate::dossier::{
    bases_of, copy_names, copy_opt, link_targets, opt_view, spec_strip_module, super_ok, Confidence,
    Dossier, Operation, OperationView, Resolution,
};
use crate::pairing::{find_moves, gone, lemma_origin, listed, moved_in, moves, origin, retired};
use crate::sitrep::{
    delta, feed_by_name, feed_positions, is_feed, item_views, lemma_is_feed, positions, flatten, insert_pair, is_sorted_difference, names, node_id, pair_lt,
    pair_views, pairs_sorted, row_view, rows_of_roots, Counts, Edge, NodeKey, Row, Status, TreeNode,
    law_delta_accounts_for_the_change,
};
use crate::structure::holds;
use crate::strmap::StrMap;
use crate::text::{joined3, leaf_of, lemma_lt_irreflexive, owned, seq_lt, spec_leaf};

verus! {

#[derive(Debug)]
pub struct Entry {
    /// Current-side operation, or the baseline-side one if it is gone.
    pub operation: Operation,
    pub status: Status,
    /// Module the operation was in before it moved.
    pub prior_module: Option<String>,
    /// Signature at baseline, for an operation present on both sides or moved.
    pub prior_params: Vec<String>,
    /// Call targets picked up / dropped since baseline, as display names.
    pub gained: Vec<String>,
    pub lost: Vec<String>,
    /// Callees that moved out from under this operation, and where they went.
    pub moved: Vec<String>,
    /// The inherited method this one overrides, as a display name.
    pub overrides: Option<String>,
}

/// What an `Entry` says, as mathematical values.
pub struct EntryView {
    pub operation: OperationView,
    pub status: Status,
    pub prior_module: Option<Seq<char>>,
    pub prior_params: Seq<Seq<char>>,
    pub gained: Seq<Seq<char>>,
    pub lost: Seq<Seq<char>>,
    pub moved: Seq<Seq<char>>,
    pub overrides: Option<Seq<char>>,
}

impl View for Entry {
    type V = EntryView;

    open spec fn view(&self) -> EntryView {
        EntryView {
            operation: self.operation@,
            status: self.status,
            prior_module: opt_view(self.prior_module),
            prior_params: names(self.prior_params@),
            gained: names(self.gained@),
            lost: names(self.lost@),
            moved: names(self.moved@),
            overrides: opt_view(self.overrides),
        }
    }
}

impl Clone for Entry {
    fn clone(&self) -> (r: Self)
        ensures
            r@ == self@,
    {
        Entry {
            operation: self.operation.clone(),
            status: self.status,
            prior_module: copy_opt(&self.prior_module),
            prior_params: copy_names(&self.prior_params),
            gained: copy_names(&self.gained),
            lost: copy_names(&self.lost),
            moved: copy_names(&self.moved),
            overrides: copy_opt(&self.overrides),
        }
    }
}

// ------------------------------------------------------------ what changed --

/// How an operation is named on screen.
pub open spec fn display(o: OperationView) -> Seq<char> {
    spec_strip_module(o.callsign, o.module, o.name)
}

/// Where a call to `t` goes now: the new home of a moved operation, else `t`.
pub open spec fn redirect(b: StrMap<Operation>, c: StrMap<Operation>, t: Seq<char>) -> Seq<char> {
    if retired(b, c, t) {
        choose|a: Seq<char>| moves(b, c, a, t)
    } else {
        t
    }
}

/// How a callsign is named on screen: the display name of the operation the
/// view reports under it, or its last segment when it reports none.
pub open spec fn show(b: StrMap<Operation>, c: StrMap<Operation>, t: Seq<char>) -> Seq<char> {
    if c.has(t) {
        display(c.value_of(t)@)
    } else if gone(b, c, t) && !retired(b, c, t) {
        display(b.value_of(t)@)
    } else {
        spec_leaf(t)
    }
}

/// The targets of an operation's resolved calls.
pub open spec fn targets_of(o: OperationView) -> Seq<Seq<char>> {
    link_targets(o.links)
}

pub open spec fn redirected(b: StrMap<Operation>, c: StrMap<Operation>, ts: Seq<Seq<char>>) -> Seq<Seq<char>> {
    ts.map_values(|t: Seq<char>| redirect(b, c, t))
}

pub open spec fn shown_all(b: StrMap<Operation>, c: StrMap<Operation>, ts: Seq<Seq<char>>) -> Seq<Seq<char>> {
    ts.map_values(|t: Seq<char>| show(b, c, t))
}

/// The signature, decorators or async-ness changed.
pub open spec fn reshaped(then: OperationView, now: OperationView) -> bool {
    then.params != now.params || then.decorators != now.decorators || then.is_async != now.is_async
}

/// `<callee> moved to <module>`.
pub open spec fn moved_line(b: StrMap<Operation>, c: StrMap<Operation>, t: Seq<char>) -> Seq<char> {
    let a = redirect(b, c, t);
    show(b, c, a) + " moved to "@ + c.value_of(a)@.module
}

/// One line for each lost callee that moved, in order.
pub open spec fn moved_lines(b: StrMap<Operation>, c: StrMap<Operation>, lost: Seq<Seq<char>>) -> Seq<Seq<char>>
    decreases lost.len(),
{
    if lost.len() == 0 {
        Seq::empty()
    } else {
        moved_lines(b, c, lost.drop_last()) + if retired(b, c, lost.last()) {
            seq![moved_line(b, c, lost.last())]
        } else {
            Seq::empty()
        }
    }
}

/// The status of an operation on both sides: a changed call set reroutes it,
/// one changed only by a callee moving leaves it in the wake of the move.
pub open spec fn calls_status(raw_changed: bool, changed: bool, reshaped: bool) -> Status {
    if changed {
        Status::Rerouted
    } else if raw_changed {
        if reshaped {
            Status::Amended
        } else {
            Status::Wake
        }
    } else if reshaped {
        Status::Amended
    } else {
        Status::Nominal
    }
}

/// The entry for an operation present on both sides.
pub open spec fn compared_ok(b: StrMap<Operation>, c: StrMap<Operation>, then: OperationView, now: OperationView, e: EntryView) -> bool {
    exists|rg: Seq<Seq<char>>, rl: Seq<Seq<char>>, g: Seq<Seq<char>>, l: Seq<Seq<char>>|
        #![trigger is_sorted_difference(rg, targets_of(now), targets_of(then)), is_sorted_difference(rl, targets_of(then), targets_of(now)), is_sorted_difference(g, targets_of(now), redirected(b, c, targets_of(then))), is_sorted_difference(l, redirected(b, c, targets_of(then)), targets_of(now))]
        {
            &&& is_sorted_difference(rg, targets_of(now), targets_of(then))
            &&& is_sorted_difference(rl, targets_of(then), targets_of(now))
            &&& is_sorted_difference(g, targets_of(now), redirected(b, c, targets_of(then)))
            &&& is_sorted_difference(l, redirected(b, c, targets_of(then)), targets_of(now))
            &&& e.operation == now
            &&& e.prior_module is None
            &&& e.prior_params == then.params
            &&& e.gained == shown_all(b, c, g)
            &&& e.lost == shown_all(b, c, l)
            &&& e.moved == moved_lines(b, c, rl)
            &&& e.status == calls_status(rg.len() > 0 || rl.len() > 0, g.len() > 0 || l.len() > 0, reshaped(then, now))
        }
}

/// Compared with itself, a snapshot reports every operation it holds, each
/// one nominal: no call gained, lost or moved.
pub proof fn law_nothing_changes_against_itself(b: StrMap<Operation>, k: Seq<char>, e: EntryView)
    requires
        listed(b, b, k),
        entry_ok(b, b, k, e),
    ensures
        b.has(k),
        e.status == Status::Nominal,
        e.gained.len() == 0,
        e.lost.len() == 0,
        e.moved.len() == 0,
{
    let o = b.value_of(k)@;
    let ts = targets_of(o);
    assert forall|t: Seq<char>| !retired(b, b, t) by {
        if retired(b, b, t) {
            let a = choose|a: Seq<char>| moves(b, b, a, t);
            assert(moves(b, b, a, t));
        }
    }
    assert(redirected(b, b, ts) =~= ts);
    let (rg, rl, g, l) = choose|rg: Seq<Seq<char>>, rl: Seq<Seq<char>>, g: Seq<Seq<char>>, l: Seq<Seq<char>>|
        {
            &&& is_sorted_difference(rg, targets_of(o), targets_of(o))
            &&& is_sorted_difference(rl, targets_of(o), targets_of(o))
            &&& is_sorted_difference(g, targets_of(o), redirected(b, b, targets_of(o)))
            &&& is_sorted_difference(l, redirected(b, b, targets_of(o)), targets_of(o))
            &&& e.operation == o
            &&& e.prior_module is None
            &&& e.prior_params == o.params
            &&& e.gained == shown_all(b, b, g)
            &&& e.lost == shown_all(b, b, l)
            &&& e.moved == moved_lines(b, b, rl)
            &&& e.status == calls_status(rg.len() > 0 || rl.len() > 0, g.len() > 0 || l.len() > 0, reshaped(o, o))
        };
    law_delta_accounts_for_the_change(ts, ts, rg, rl);
    law_delta_accounts_for_the_change(ts, ts, g, l);
    assert(moved_lines(b, b, rl) =~= Seq::<Seq<char>>::empty());
}

/// The entry for `k` says what happened to that operation.
pub open spec fn entry_ok(b: StrMap<Operation>, c: StrMap<Operation>, k: Seq<char>, e: EntryView) -> bool {
    if c.has(k) && b.has(k) {
        compared_ok(b, c, b.value_of(k)@, c.value_of(k)@, e)
    } else if c.has(k) {
        &&& e.operation == c.value_of(k)@
        &&& e.gained.len() == 0
        &&& e.lost.len() == 0
        &&& e.moved.len() == 0
        &&& (if moved_in(b, c, k) {
            let then = b.value_of(origin(b, c, k))@;
            &&& e.status == Status::Relocated
            &&& e.prior_module == Some(then.module)
            &&& e.prior_params == then.params
        } else {
            &&& e.status == Status::Activated
            &&& e.prior_module is None
            &&& e.prior_params.len() == 0
        })
    } else {
        &&& e.operation == b.value_of(k)@
        &&& e.status == Status::Burned
        &&& e.prior_module is None
        &&& e.prior_params.len() == 0
        &&& e.gained.len() == 0
        &&& e.lost.len() == 0
        &&& e.moved.len() == 0
    }
}

/// The inherited method `op` overrides, as found in `d`, by display name.
pub open spec fn overrides_ok(
    d: Dossier,
    b: StrMap<Operation>,
    c: StrMap<Operation>,
    op: OperationView,
    ov: Option<Seq<char>>,
) -> bool {
    match op.owner {
        None => ov is None,
        Some(owner) => exists|res: Resolution|
            #[trigger] super_ok(d, bases_of(d.subjects, owner), 0, op.name, res) && ov == match res {
                Resolution::To(hit, _) => Some(show(b, c, hit)),
                _ => None,
            },
    }
}

/// `remap` sends each operation that moved away to where it moved.
pub open spec fn remap_ok(b: StrMap<Operation>, c: StrMap<Operation>, remap: StrMap<String>) -> bool {
    &&& forall|t: Seq<char>| #[trigger] remap.has(t) <==> retired(b, c, t)
    &&& forall|t: Seq<char>| #[trigger] remap.has(t) ==> remap.value_of(t)@ == redirect(b, c, t)
}

/// `back` sends each operation that moved in to where it came from.
pub open spec fn back_ok(b: StrMap<Operation>, c: StrMap<Operation>, back: StrMap<String>) -> bool {
    &&& forall|a: Seq<char>| #[trigger] back.has(a) <==> moved_in(b, c, a)
    &&& forall|a: Seq<char>| #[trigger] back.has(a) ==> back.value_of(a)@ == origin(b, c, a)
}

/// A move is one-for-one.
proof fn lemma_moves_unique(b: StrMap<Operation>, c: StrMap<Operation>, a: Seq<char>, o: Seq<char>)
    requires
        moves(b, c, a, o),
    ensures
        redirect(b, c, o) == a,
        origin(b, c, a) == o,
        retired(b, c, o),
        moved_in(b, c, a),
{
    lemma_origin(b, c, a, o);
    let w = choose|w: Seq<char>| moves(b, c, w, o);
    assert(moves(b, c, w, o));
    assert(crate::pairing::fresh(b, c, w) && c.value_of(w).name@ == c.value_of(a).name@);
}

/// Both directions of every move.
fn remaps(b: &StrMap<Operation>, c: &StrMap<Operation>) -> (r: (StrMap<String>, StrMap<String>))
    ensures
        remap_ok(*b, *c, r.0),
        back_ok(*b, *c, r.1),
{
    let pairs = find_moves(b, c);
    let mut remap: StrMap<String> = StrMap::new();
    let mut back: StrMap<String> = StrMap::new();
    let mut i: usize = 0;
    while i < pairs.len()
        invariant
            i <= pairs.len(),
            forall|p: int| 0 <= p < pairs.len() ==> moves(*b, *c, #[trigger] pairs@[p].0@, pairs@[p].1@),
            forall|a: Seq<char>, o: Seq<char>| #[trigger] moves(*b, *c, a, o) ==> exists|p: int|
                0 <= p < pairs.len() && #[trigger] pairs@[p].0@ == a && pairs@[p].1@ == o,
            forall|t: Seq<char>| #[trigger] remap.has(t) <==> exists|p: int| 0 <= p < i && #[trigger] pairs@[p].1@ == t,
            forall|t: Seq<char>| #[trigger] remap.has(t) ==> remap.value_of(t)@ == redirect(*b, *c, t),
            forall|a: Seq<char>| #[trigger] back.has(a) <==> exists|p: int| 0 <= p < i && #[trigger] pairs@[p].0@ == a,
            forall|a: Seq<char>| #[trigger] back.has(a) ==> back.value_of(a)@ == origin(*b, *c, a),
        decreases pairs.len() - i,
    {
        let a = pairs[i].0.clone();
        let o = pairs[i].1.clone();
        proof {
            assert(moves(*b, *c, pairs@[i as int].0@, pairs@[i as int].1@));
            lemma_moves_unique(*b, *c, a@, o@);
        }
        let ghost av = a@;
        let ghost ov = o@;
        remap.put(o.clone(), a.clone());
        back.put(a, o);
        proof {
            assert forall|t: Seq<char>| #[trigger] remap.has(t) <==> exists|p: int| 0 <= p < i + 1 && #[trigger] pairs@[p].1@ == t by {
                if t == ov {
                    assert(pairs@[i as int].1@ == t);
                } else if exists|p: int| 0 <= p < i + 1 && #[trigger] pairs@[p].1@ == t {
                    let p = choose|p: int| 0 <= p < i + 1 && #[trigger] pairs@[p].1@ == t;
                    assert(p != i);
                }
            }
            assert forall|t: Seq<char>| #[trigger] back.has(t) <==> exists|p: int| 0 <= p < i + 1 && #[trigger] pairs@[p].0@ == t by {
                if t == av {
                    assert(pairs@[i as int].0@ == t);
                } else if exists|p: int| 0 <= p < i + 1 && #[trigger] pairs@[p].0@ == t {
                    let p = choose|p: int| 0 <= p < i + 1 && #[trigger] pairs@[p].0@ == t;
                    assert(p != i);
                }
            }
        }
        i = i + 1;
    }
    proof {
        assert forall|t: Seq<char>| #[trigger] remap.has(t) <==> retired(*b, *c, t) by {
            if retired(*b, *c, t) {
                let a = choose|a: Seq<char>| #[trigger] moves(*b, *c, a, t);
                let p = choose|p: int| 0 <= p < pairs.len() && #[trigger] pairs@[p].0@ == a && pairs@[p].1@ == t;
                assert(pairs@[p].1@ == t);
            }
            if remap.has(t) {
                let p = choose|p: int| 0 <= p < pairs.len() && #[trigger] pairs@[p].1@ == t;
                assert(moves(*b, *c, pairs@[p].0@, t));
            }
        }
        assert forall|a: Seq<char>| #[trigger] back.has(a) <==> moved_in(*b, *c, a) by {
            if moved_in(*b, *c, a) {
                let o = choose|o: Seq<char>| #[trigger] moves(*b, *c, a, o);
                let p = choose|p: int| 0 <= p < pairs.len() && #[trigger] pairs@[p].0@ == a && pairs@[p].1@ == o;
                assert(pairs@[p].0@ == a);
            }
            if back.has(a) {
                let p = choose|p: int| 0 <= p < pairs.len() && #[trigger] pairs@[p].0@ == a;
                assert(moves(*b, *c, a, pairs@[p].1@));
            }
        }
    }
    (remap, back)
}

/// Where a call to `t` goes now.
fn redirect_one(b: &StrMap<Operation>, c: &StrMap<Operation>, remap: &StrMap<String>, t: &String) -> (r: String)
    requires
        remap_ok(*b, *c, *remap),
    ensures
        r@ == redirect(*b, *c, t@),
{
    match remap.get(t.as_str()) {
        Some(a) => a.clone(),
        None => t.clone(),
    }
}

/// How a callsign is named on screen.
fn show_one(b: &StrMap<Operation>, c: &StrMap<Operation>, remap: &StrMap<String>, t: &str) -> (r: String)
    requires
        remap_ok(*b, *c, *remap),
    ensures
        r@ == show(*b, *c, t@),
{
    match c.get(t) {
        Some(op) => op.display_name(),
        None => {
            if remap.contains_key(t) {
                leaf_of(t)
            } else {
                match b.get(t) {
                    Some(op) => op.display_name(),
                    None => leaf_of(t),
                }
            }
        },
    }
}

/// Every call target redirected.
fn redirect_all(b: &StrMap<Operation>, c: &StrMap<Operation>, remap: &StrMap<String>, ts: &Vec<String>) -> (r: Vec<String>)
    requires
        remap_ok(*b, *c, *remap),
    ensures
        names(r@) == redirected(*b, *c, names(ts@)),
{
    let mut r: Vec<String> = Vec::new();
    let mut i: usize = 0;
    while i < ts.len()
        invariant
            remap_ok(*b, *c, *remap),
            i <= ts.len(),
            names(r@) == redirected(*b, *c, names(ts@).take(i as int)),
        decreases ts.len() - i,
    {
        let x = redirect_one(b, c, remap, &ts[i]);
        let ghost before = r@;
        r.push(x);
        proof {
            assert(names(r@) =~= names(before).push(x@));
            assert(names(ts@).take(i + 1) =~= names(ts@).take(i as int).push(ts@[i as int]@));
            assert(redirected(*b, *c, names(ts@).take(i + 1)) =~= redirected(*b, *c, names(ts@).take(i as int)).push(x@));
        }
        i = i + 1;
    }
    assert(names(ts@).take(i as int) =~= names(ts@));
    r
}

/// Every callsign named as on screen.
fn show_all(b: &StrMap<Operation>, c: &StrMap<Operation>, remap: &StrMap<String>, ts: &Vec<String>) -> (r: Vec<String>)
    requires
        remap_ok(*b, *c, *remap),
    ensures
        names(r@) == shown_all(*b, *c, names(ts@)),
{
    let mut r: Vec<String> = Vec::new();
    let mut i: usize = 0;
    while i < ts.len()
        invariant
            remap_ok(*b, *c, *remap),
            i <= ts.len(),
            names(r@) == shown_all(*b, *c, names(ts@).take(i as int)),
        decreases ts.len() - i,
    {
        let x = show_one(b, c, remap, ts[i].as_str());
        let ghost before = r@;
        r.push(x);
        proof {
            assert(names(r@) =~= names(before).push(x@));
            assert(names(ts@).take(i + 1) =~= names(ts@).take(i as int).push(ts@[i as int]@));
            assert(shown_all(*b, *c, names(ts@).take(i + 1)) =~= shown_all(*b, *c, names(ts@).take(i as int)).push(x@));
        }
        i = i + 1;
    }
    assert(names(ts@).take(i as int) =~= names(ts@));
    r
}

/// One line per lost callee that moved.
fn moved_all(b: &StrMap<Operation>, c: &StrMap<Operation>, remap: &StrMap<String>, lost: &Vec<String>) -> (r: Vec<String>)
    requires
        remap_ok(*b, *c, *remap),
    ensures
        names(r@) == moved_lines(*b, *c, names(lost@)),
{
    let mut r: Vec<String> = Vec::new();
    let mut i: usize = 0;
    assert(names(lost@).take(0) =~= Seq::<Seq<char>>::empty());
    while i < lost.len()
        invariant
            remap_ok(*b, *c, *remap),
            i <= lost.len(),
            names(r@) == moved_lines(*b, *c, names(lost@).take(i as int)),
        decreases lost.len() - i,
    {
        let ghost before = r@;
        let ghost t = names(lost@)[i as int];
        proof {
            assert(names(lost@).take(i + 1).drop_last() =~= names(lost@).take(i as int));
            assert(names(lost@).take(i + 1).last() == t);
        }
        match remap.get(lost[i].as_str()) {
            Some(a) => {
                let who = show_one(b, c, remap, a.as_str());
                match c.get(a.as_str()) {
                    Some(op) => {
                        let line = joined3(who.as_str(), " moved to ", op.module.as_str());
                        r.push(line);
                        proof {
                            assert(names(r@) =~= names(before).push(line@));
                        }
                    },
                    None => {
                        proof {
                            let w = choose|w: Seq<char>| moves(*b, *c, w, t);
                            lemma_moves_unique(*b, *c, w, t);
                        }
                    },
                }
            },
            None => {},
        }
        i = i + 1;
    }
    assert(names(lost@).take(i as int) =~= names(lost@));
    r
}

/// Whether two lists of names hold the same names in the same order.
fn same_list(a: &Vec<String>, b: &Vec<String>) -> (r: bool)
    ensures
        r == (names(a@) == names(b@)),
{
    crate::sitrep::same_names(a, b)
}

/// The entry for an operation present on both sides.
fn compare(
    b: &StrMap<Operation>,
    c: &StrMap<Operation>,
    remap: &StrMap<String>,
    then: &Operation,
    now: &Operation,
    overrides: Option<String>,
) -> (e: Entry)
    requires
        remap_ok(*b, *c, *remap),
    ensures
        compared_ok(*b, *c, then@, now@, e@),
        e.operation@ == now@,
        e.overrides == overrides,
{
    let then_targets = then.targets();
    let now_targets = now.targets();
    let (raw_gained, raw_lost) = delta(&then_targets, &now_targets);
    let sent = redirect_all(b, c, remap, &then_targets);
    let (gained, lost) = delta(&sent, &now_targets);
    let reshaped = !same_list(&then.params, &now.params) || !same_list(&then.decorators, &now.decorators)
        || then.is_async != now.is_async;
    let status = if gained.len() > 0 || lost.len() > 0 {
        Status::Rerouted
    } else if raw_gained.len() > 0 || raw_lost.len() > 0 {
        if reshaped {
            Status::Amended
        } else {
            Status::Wake
        }
    } else if reshaped {
        Status::Amended
    } else {
        Status::Nominal
    };
    let moved = moved_all(b, c, remap, &raw_lost);
    let shown_gained = show_all(b, c, remap, &gained);
    let shown_lost = show_all(b, c, remap, &lost);
    let e = Entry {
        operation: now.clone(),
        status,
        prior_module: None,
        prior_params: copy_names(&then.params),
        gained: shown_gained,
        lost: shown_lost,
        moved,
        overrides,
    };
    proof {
        let rg = names(raw_gained@);
        let rl = names(raw_lost@);
        let g = names(gained@);
        let l = names(lost@);
        assert(is_sorted_difference(rg, targets_of(now@), targets_of(then@)));
        assert(is_sorted_difference(rl, targets_of(then@), targets_of(now@)));
        assert(is_sorted_difference(g, targets_of(now@), redirected(*b, *c, targets_of(then@))));
        assert(is_sorted_difference(l, redirected(*b, *c, targets_of(then@)), targets_of(now@)));
        assert(rg.len() == raw_gained.len());
        assert(g.len() == gained.len());
    }
    e
}

/// An entry for an operation found on one side only.
fn alone(op: &Operation, status: Status, overrides: Option<String>) -> (e: Entry)
    ensures
        e.operation@ == op@,
        e.status == status,
        e.prior_module is None,
        e@.prior_params.len() == 0,
        e@.gained.len() == 0,
        e@.lost.len() == 0,
        e@.moved.len() == 0,
        e.overrides == overrides,
{
    let e = Entry {
        operation: op.clone(),
        status,
        prior_module: None,
        prior_params: Vec::new(),
        gained: Vec::new(),
        lost: Vec::new(),
        moved: Vec::new(),
        overrides,
    };
    assert(e@.prior_params =~= Seq::<Seq<char>>::empty());
    assert(e@.gained =~= Seq::<Seq<char>>::empty());
    assert(e@.lost =~= Seq::<Seq<char>>::empty());
    assert(e@.moved =~= Seq::<Seq<char>>::empty());
    e
}

/// The inherited method `op` overrides, looked up in `d`, by display name.
fn overrides_of(
    d: &Dossier,
    b: &StrMap<Operation>,
    c: &StrMap<Operation>,
    remap: &StrMap<String>,
    op: &Operation,
) -> (r: Option<String>)
    requires
        remap_ok(*b, *c, *remap),
    ensures
        overrides_ok(*d, *b, *c, op@, opt_view(r)),
{
    if op.owner.is_none() {
        return None;
    }
    let found = d.overridden(op);
    let ghost owner = op@.owner->0;
    let ghost res = choose|res: Resolution|
        #[trigger] super_ok(*d, bases_of(d.subjects, owner), 0, op.name@, res) && opt_view(found) == match res {
            Resolution::To(hit, _) => Some(hit),
            _ => None,
        };
    let r = match found {
        Some(hit) => Some(show_one(b, c, remap, hit.as_str())),
        None => None,
    };
    assert(super_ok(*d, bases_of(d.subjects, owner), 0, op@.name, res));
    r
}

/// The dossier an entry's operation was read from.
pub open spec fn source(baseline: Dossier, current: Dossier, k: Seq<char>) -> Dossier {
    if current.operations.has(k) {
        current
    } else {
        baseline
    }
}

/// One entry per operation the view reports.
fn survey(baseline: &Dossier, current: &Dossier) -> (entries: StrMap<Entry>)
    ensures
        forall|x: Seq<char>| #[trigger] entries.has(x) <==> listed(baseline.operations, current.operations, x),
        forall|x: Seq<char>| #[trigger] entries.has(x) ==> entry_ok(
            baseline.operations,
            current.operations,
            x,
            entries.value_of(x)@,
        ),
        forall|x: Seq<char>| #[trigger] entries.has(x) ==> overrides_ok(
            source(*baseline, *current, x),
            baseline.operations,
            current.operations,
            entries.value_of(x)@.operation,
            entries.value_of(x)@.overrides,
        ),
{
    let b = &baseline.operations;
    let c = &current.operations;
    let (remap, back) = remaps(b, c);
    let mut entries: StrMap<Entry> = StrMap::new();
    let n = c.len();
    let mut i: usize = 0;
    while i < n
        invariant
            *b == baseline.operations,
            *c == current.operations,
            n == c.key_list().len(),
            remap_ok(*b, *c, remap),
            back_ok(*b, *c, back),
            i <= n,
            forall|x: Seq<char>| #[trigger] entries.has(x) <==> c.key_list().take(i as int).contains(x),
            forall|x: Seq<char>| #[trigger] entries.has(x) ==> entry_ok(*b, *c, x, entries.value_of(x)@),
            forall|x: Seq<char>| #[trigger] entries.has(x) ==> overrides_ok(
                source(*baseline, *current, x),
                *b,
                *c,
                entries.value_of(x)@.operation,
                entries.value_of(x)@.overrides,
            ),
        decreases n - i,
    {
        let k = c.key_at(i);
        let now = c.value_at(i);
        proof {
            c.lemma_index_of(i as int);
            crate::text::lemma_push_contains(c.key_list().take(i as int), k@);
            assert(c.key_list().take(i + 1) =~= c.key_list().take(i as int).push(k@));
        }
        let ov = overrides_of(current, b, c, &remap, now);
        let e = match b.get(k.as_str()) {
            Some(then) => compare(b, c, &remap, then, now, ov),
            None => match back.get(k.as_str()) {
                Some(o) => match b.get(o.as_str()) {
                    Some(then) => {
                        let mut e = alone(now, Status::Relocated, ov);
                        e.prior_module = Some(then.module.clone());
                        e.prior_params = copy_names(&then.params);
                        e
                    },
                    None => {
                        proof {
                            let w = choose|w: Seq<char>| #[trigger] moves(*b, *c, k@, w);
                            lemma_moves_unique(*b, *c, k@, w);
                        }
                        alone(now, Status::Relocated, ov)
                    },
                },
                None => alone(now, Status::Activated, ov),
            },
        };
        proof {
            assert(e@.operation == now@);
            assert(e@.overrides == opt_view(ov));
            assert(source(*baseline, *current, k@) == *current);
            assert(overrides_ok(source(*baseline, *current, k@), *b, *c, e@.operation, e@.overrides));
        }
        entries.put(k.clone(), e);
        i = i + 1;
    }
    assert(c.key_list().take(n as int) =~= c.key_list());
    let m = b.len();
    let mut j: usize = 0;
    while j < m
        invariant
            *b == baseline.operations,
            *c == current.operations,
            m == b.key_list().len(),
            remap_ok(*b, *c, remap),
            j <= m,
            forall|x: Seq<char>| #[trigger] entries.has(x) <==> (c.has(x) || (gone(*b, *c, x) && !retired(*b, *c, x)
                && b.key_list().take(j as int).contains(x))),
            forall|x: Seq<char>| #[trigger] entries.has(x) ==> entry_ok(*b, *c, x, entries.value_of(x)@),
            forall|x: Seq<char>| #[trigger] entries.has(x) ==> overrides_ok(
                source(*baseline, *current, x),
                *b,
                *c,
                entries.value_of(x)@.operation,
                entries.value_of(x)@.overrides,
            ),
        decreases m - j,
    {
        let k = b.key_at(j);
        let then = b.value_at(j);
        proof {
            b.lemma_index_of(j as int);
            crate::text::lemma_push_contains(b.key_list().take(j as int), k@);
            assert(b.key_list().take(j + 1) =~= b.key_list().take(j as int).push(k@));
        }
        if !c.contains_key(k.as_str()) && !remap.contains_key(k.as_str()) {
            let ov = overrides_of(baseline, b, c, &remap, then);
            let e = alone(then, Status::Burned, ov);
            proof {
                assert(e@.operation == then@);
                assert(e@.overrides == opt_view(ov));
                assert(source(*baseline, *current, k@) == *baseline);
                assert(overrides_ok(source(*baseline, *current, k@), *b, *c, e@.operation, e@.overrides));
            }
            entries.put(k.clone(), e);
        }
        j = j + 1;
    }
    assert(b.key_list().take(m as int) =~= b.key_list());
    entries
}

// ---------------------------------------------------------------- traffic --

/// Sum of a value over a list of operations.
pub open spec fn links_total(ops: Seq<Operation>) -> int
    decreases ops.len(),
{
    if ops.len() == 0 {
        0
    } else {
        links_total(ops.drop_last()) + ops.last().links@.len()
    }
}

/// How many of `links` are only probable.
pub open spec fn probable_in(links: Seq<crate::dossier::Link>) -> int
    decreases links.len(),
{
    if links.len() == 0 {
        0
    } else {
        probable_in(links.drop_last()) + if links.last().confidence == Confidence::Probable {
            1int
        } else {
            0int
        }
    }
}

pub open spec fn probable_total(ops: Seq<Operation>) -> int
    decreases ops.len(),
{
    if ops.len() == 0 {
        0
    } else {
        probable_total(ops.drop_last()) + probable_in(ops.last().links@)
    }
}

pub open spec fn external_total(ops: Seq<Operation>) -> int
    decreases ops.len(),
{
    if ops.len() == 0 {
        0
    } else {
        external_total(ops.drop_last()) + ops.last().external
    }
}

/// A count held in a `usize`, pinned at its largest value rather than wrapping.
pub open spec fn capped(x: int) -> int {
    if x <= usize::MAX {
        x
    } else {
        usize::MAX as int
    }
}

proof fn lemma_capped_add(a: int, x: int)
    requires
        a >= 0,
        x >= 0,
    ensures
        (if capped(a) + x <= usize::MAX { capped(a) + x } else { usize::MAX as int }) == capped(a + x),
{
}

/// Resolved edges, inferred edges and calls leaving the package, over the
/// operations of a snapshot.
fn tallies(ops: &StrMap<Operation>) -> (r: (usize, usize, usize))
    ensures
        r.0 == capped(links_total(ops.value_list())),
        r.1 == capped(probable_total(ops.value_list())),
        r.2 == capped(external_total(ops.value_list())),
{
    let ghost vs = ops.value_list();
    let n = ops.len();
    let mut links: usize = 0;
    let mut probable: usize = 0;
    let mut external: usize = 0;
    let mut i: usize = 0;
    assert(vs.take(0) =~= Seq::<Operation>::empty());
    while i < n
        invariant
            vs == ops.value_list(),
            n == vs.len(),
            i <= n,
            links == capped(links_total(vs.take(i as int))),
            probable == capped(probable_total(vs.take(i as int))),
            external == capped(external_total(vs.take(i as int))),
            links_total(vs.take(i as int)) >= 0,
            probable_total(vs.take(i as int)) >= 0,
            external_total(vs.take(i as int)) >= 0,
        decreases n - i,
    {
        let op = ops.value_at(i);
        assert(vs.take(i + 1).drop_last() =~= vs.take(i as int));
        assert(vs.take(i + 1).last() == *op);
        let mut p: usize = 0;
        let mut j: usize = 0;
        assert(op.links@.take(0) =~= Seq::<crate::dossier::Link>::empty());
        while j < op.links.len()
            invariant
                j <= op.links.len(),
                p == probable_in(op.links@.take(j as int)),
                p <= j,
            decreases op.links.len() - j,
        {
            assert(op.links@.take(j + 1).drop_last() =~= op.links@.take(j as int));
            if op.links[j].confidence == Confidence::Probable {
                p = p + 1;
            }
            j = j + 1;
        }
        assert(op.links@.take(j as int) =~= op.links@);
        proof {
            lemma_capped_add(links_total(vs.take(i as int)), op.links@.len() as int);
            lemma_capped_add(probable_total(vs.take(i as int)), p as int);
            lemma_capped_add(external_total(vs.take(i as int)), op.external as int);
        }
        links = links.saturating_add(op.links.len());
        probable = probable.saturating_add(p);
        external = external.saturating_add(op.external);
        i = i + 1;
    }
    assert(vs.take(n as int) =~= vs);
    (links, probable, external)
}

// ------------------------------------------------------------------ wires --

/// The operation's baseline side: itself, or what it moved from.
pub open spec fn then_of(b: StrMap<Operation>, c: StrMap<Operation>, k: Seq<char>) -> Option<OperationView> {
    if moved_in(b, c, k) {
        Some(b.value_of(origin(b, c, k))@)
    } else if b.has(k) {
        Some(b.value_of(k)@)
    } else {
        None
    }
}

pub open spec fn now_of(c: StrMap<Operation>, k: Seq<char>) -> Option<OperationView> {
    if c.has(k) {
        Some(c.value_of(k)@)
    } else {
        None
    }
}

pub open spec fn links_of(o: Option<OperationView>) -> Seq<(Seq<char>, Confidence)> {
    match o {
        Some(o) => o.links,
        None => Seq::empty(),
    }
}

/// The grade of the last link in `links` to `t`.
pub open spec fn last_to(links: Seq<(Seq<char>, Confidence)>, t: Seq<char>) -> Option<Confidence>
    decreases links.len(),
{
    if links.len() == 0 {
        None
    } else if links.last().0 == t {
        Some(links.last().1)
    } else {
        last_to(links.drop_last(), t)
    }
}

/// The grade of the first link in `links` that now leads to `t`.
pub open spec fn first_to(b: StrMap<Operation>, c: StrMap<Operation>, links: Seq<(Seq<char>, Confidence)>, t: Seq<char>) -> Option<Confidence>
    decreases links.len(),
{
    if links.len() == 0 {
        None
    } else {
        match first_to(b, c, links.drop_last(), t) {
            Some(g) => Some(g),
            None => if redirect(b, c, links.last().0) == t {
                Some(links.last().1)
            } else {
                None
            },
        }
    }
}

/// The call from `k` to `t` in the union of both snapshots, with how its
/// traffic changed. A baseline call to an operation that moved leads to where
/// it moved. An operation on one side only draws all its calls live: its own
/// status already says it is new or gone.
pub open spec fn wire(b: StrMap<Operation>, c: StrMap<Operation>, k: Seq<char>, t: Seq<char>) -> Option<(Edge, Confidence)> {
    if !listed(b, c, t) {
        None
    } else {
        let now = now_of(c, k);
        let then = then_of(b, c, k);
        let both = now is Some && then is Some;
        match last_to(links_of(now), t) {
            Some(g) => Some(
                (if both && !redirected(b, c, link_targets(links_of(then))).contains(t) {
                    Edge::Opened
                } else {
                    Edge::Live
                }, g),
            ),
            None => match first_to(b, c, links_of(then), t) {
                Some(g) => Some(
                    (if both {
                        Edge::Closed
                    } else {
                        Edge::Live
                    }, g),
                ),
                None => None,
            },
        }
    }
}

/// Traffic tags are only drawn when the caller exists on both sides: every
/// call into or out of an operation that is new or gone is drawn live, since
/// its own status already says so.
pub proof fn law_tags_need_both_sides(b: StrMap<Operation>, c: StrMap<Operation>, k: Seq<char>, t: Seq<char>)
    requires
        wire(b, c, k, t) is Some,
        wire(b, c, k, t).unwrap().0 != Edge::Live,
    ensures
        now_of(c, k) is Some,
        then_of(b, c, k) is Some,
        wire(b, c, k, t).unwrap().0 == Edge::Opened ==> last_to(links_of(now_of(c, k)), t) is Some,
        wire(b, c, k, t).unwrap().0 == Edge::Closed ==> last_to(links_of(now_of(c, k)), t) is None,
{
}

/// `w` holds exactly the wires out of `k`.
pub open spec fn wires_ok(b: StrMap<Operation>, c: StrMap<Operation>, k: Seq<char>, w: StrMap<(Edge, Confidence)>) -> bool {
    &&& forall|t: Seq<char>| #[trigger] w.has(t) <==> wire(b, c, k, t) is Some
    &&& forall|t: Seq<char>| #[trigger] w.has(t) ==> wire(b, c, k, t) == Some(w.value_of(t))
}

/// The wires out of `k`.
fn wires_of(
    b: &StrMap<Operation>,
    c: &StrMap<Operation>,
    remap: &StrMap<String>,
    back: &StrMap<String>,
    entries: &StrMap<Entry>,
    k: &str,
) -> (w: StrMap<(Edge, Confidence)>)
    requires
        remap_ok(*b, *c, *remap),
        back_ok(*b, *c, *back),
        forall|x: Seq<char>| #[trigger] entries.has(x) <==> listed(*b, *c, x),
    ensures
        wires_ok(*b, *c, k@, w),
{
    let now = c.get(k);
    let then = match back.get(k) {
        Some(o) => b.get(o.as_str()),
        None => b.get(k),
    };
    let ghost nv = now_of(*c, k@);
    let ghost tv = then_of(*b, *c, k@);
    proof {
        if moved_in(*b, *c, k@) {
            let o = choose|o: Seq<char>| #[trigger] moves(*b, *c, k@, o);
            lemma_moves_unique(*b, *c, k@, o);
        }
    }
    assert(match then { Some(t) => tv == Some(t@), None => tv is None });
    assert(match now { Some(t) => nv == Some(t@), None => nv is None });
    let both = now.is_some() && then.is_some();
    let before = match then {
        Some(t) => {
            let sent = redirect_all(b, c, remap, &t.targets());
            crate::sitrep::name_set(sent.as_slice())
        },
        None => StrMap::new(),
    };
    assert(forall|x: Seq<char>| #[trigger] before.key_list().contains(x) <==> redirected(*b, *c, link_targets(links_of(tv))).contains(x));
    let mut w: StrMap<(Edge, Confidence)> = StrMap::new();
    let ghost nl = links_of(nv);
    let ghost tl = links_of(tv);
    match now {
        Some(op) => {
            let mut i: usize = 0;
            assert(nl.take(0) =~= Seq::<(Seq<char>, Confidence)>::empty());
            while i < op.links.len()
                invariant
                    nl == links_of(nv),
                    nv == Some(op@),
                    nl == crate::dossier::link_views(op.links@),
                    i <= op.links.len(),
                    forall|x: Seq<char>| #[trigger] entries.has(x) <==> listed(*b, *c, x),
                    forall|x: Seq<char>| #[trigger] before.key_list().contains(x) <==> redirected(*b, *c, link_targets(links_of(tv))).contains(x),
                    forall|t: Seq<char>| #[trigger] w.has(t) <==> (listed(*b, *c, t) && last_to(nl.take(i as int), t) is Some),
                    forall|t: Seq<char>| #[trigger] w.has(t) ==> w.value_of(t) == (
                        if both && !redirected(*b, *c, link_targets(links_of(tv))).contains(t) {
                            Edge::Opened
                        } else {
                            Edge::Live
                        },
                        last_to(nl.take(i as int), t)->0,
                    ),
                decreases op.links.len() - i,
            {
                let link = &op.links[i];
                assert(nl.take(i + 1).drop_last() =~= nl.take(i as int));
                assert(nl.take(i + 1).last() == (link.target@, link.confidence));
                if entries.contains_key(link.target.as_str()) {
                    let edge = if both && !before.contains_key(link.target.as_str()) {
                        Edge::Opened
                    } else {
                        Edge::Live
                    };
                    w.put(link.target.clone(), (edge, link.confidence));
                }
                i = i + 1;
            }
            assert(nl.take(i as int) =~= nl);
        },
        None => {
            assert(nl =~= Seq::<(Seq<char>, Confidence)>::empty());
        },
    }
    match then {
        Some(op) => {
            let mut j: usize = 0;
            assert(tl.take(0) =~= Seq::<(Seq<char>, Confidence)>::empty());
            while j < op.links.len()
                invariant
                    remap_ok(*b, *c, *remap),
                    tl == links_of(tv),
                    tv == Some(op@),
                    tl == crate::dossier::link_views(op.links@),
                    j <= op.links.len(),
                    forall|x: Seq<char>| #[trigger] entries.has(x) <==> listed(*b, *c, x),
                    forall|t: Seq<char>| #[trigger] w.has(t) <==> (listed(*b, *c, t) && (last_to(nl, t) is Some
                        || first_to(*b, *c, tl.take(j as int), t) is Some)),
                    forall|t: Seq<char>| #[trigger] w.has(t) ==> w.value_of(t) == (
                        if last_to(nl, t) is Some {
                            (if both && !redirected(*b, *c, link_targets(tl)).contains(t) {
                                Edge::Opened
                            } else {
                                Edge::Live
                            }, last_to(nl, t)->0)
                        } else {
                            (if both {
                                Edge::Closed
                            } else {
                                Edge::Live
                            }, first_to(*b, *c, tl.take(j as int), t)->0)
                        }
                    ),
                decreases op.links.len() - j,
            {
                let link = &op.links[j];
                assert(tl.take(j + 1).drop_last() =~= tl.take(j as int));
                assert(tl.take(j + 1).last() == (link.target@, link.confidence));
                let t = redirect_one(b, c, remap, &link.target);
                if entries.contains_key(t.as_str()) && !w.contains_key(t.as_str()) {
                    let edge = if both {
                        Edge::Closed
                    } else {
                        Edge::Live
                    };
                    w.put(t, (edge, link.confidence));
                }
                j = j + 1;
            }
            assert(tl.take(j as int) =~= tl);
        },
        None => {
            assert(tl =~= Seq::<(Seq<char>, Confidence)>::empty());
        },
    }
    w
}

/// Every entry's wires.
pub open spec fn all_wires_ok(
    b: StrMap<Operation>,
    c: StrMap<Operation>,
    entries: StrMap<Entry>,
    wires: StrMap<StrMap<(Edge, Confidence)>>,
) -> bool {
    &&& forall|k: Seq<char>| #[trigger] wires.has(k) <==> entries.has(k)
    &&& forall|k: Seq<char>| #[trigger] wires.has(k) ==> wires_ok(b, c, k, wires.value_of(k))
}

/// Something in the package calls `t`.
pub open spec fn called(b: StrMap<Operation>, c: StrMap<Operation>, t: Seq<char>) -> bool {
    exists|j: Seq<char>| listed(b, c, j) && #[trigger] wire(b, c, j, t) is Some
}

/// The note a node carries for the grade of the call that reaches it.
pub open spec fn note_ok(note: Option<String>, g: Confidence) -> bool {
    match g {
        Confidence::Probable => note is Some && note->0@ == "?"@,
        Confidence::Confirmed => note is None,
    }
}

/// The order siblings and roots are drawn in: by label, then by callsign.
pub open spec fn label_key(n: TreeNode) -> (Seq<char>, Seq<char>) {
    (n.label@, node_id(n))
}

/// `n` draws the operation it names. Drawn the first time, it carries one
/// child per call the operation makes, in order; drawn again, it is a leaf.
pub open spec fn spread(n: TreeNode, entries: StrMap<Entry>, b: StrMap<Operation>, c: StrMap<Operation>) -> bool
    decreases n, 1int, 0int,
{
    let k = node_id(n);
    let e = entries.value_of(k)@;
    &&& n.key is Operation
    &&& entries.has(k)
    &&& n.label@ == display(e.operation)
    &&& (if n.repeat {
        &&& n.children@.len() == 0
        &&& n.touched == (holds(e.status) || n.edge != Edge::Live)
    } else {
        &&& n.touched == (holds(e.status) || n.edge != Edge::Live || exists|i: int|
            0 <= i < n.children@.len() && (#[trigger] n.children@[i]).touched)
        &&& forall|t: Seq<char>| #[trigger] wire(b, c, k, t) is Some ==> exists|i: int|
            0 <= i < n.children@.len() && node_id(#[trigger] n.children@[i]) == t
        &&& spread_kids(n, 0, entries, b, c)
    })
}

pub open spec fn spread_kids(n: TreeNode, i: int, entries: StrMap<Entry>, b: StrMap<Operation>, c: StrMap<Operation>) -> bool
    decreases n, 0int, n.children@.len() - i,
{
    if i < 0 || i >= n.children@.len() {
        true
    } else {
        let kid = n.children@[i];
        &&& (wire(b, c, node_id(n), node_id(kid)) matches Some(w) && kid.edge == w.0 && note_ok(kid.note, w.1))
        &&& spread(kid, entries, b, c)
        &&& (i + 1 < n.children@.len() ==> pair_lt(label_key(kid), label_key(n.children@[i + 1])))
        &&& spread_kids(n, i + 1, entries, b, c)
    }
}

/// The operations expanded in `n` and below it, in drawing order.
pub open spec fn op_keys(n: TreeNode) -> Seq<Seq<char>>
    decreases n, 1int, 0int,
{
    (if n.key is Operation && !n.repeat {
        seq![node_id(n)]
    } else {
        Seq::empty()
    }) + op_keys_kids(n, 0)
}

pub open spec fn op_keys_kids(n: TreeNode, i: int) -> Seq<Seq<char>>
    decreases n, 0int, n.children@.len() - i,
{
    if i < 0 || i >= n.children@.len() {
        Seq::empty()
    } else {
        op_keys(n.children@[i]) + op_keys_kids(n, i + 1)
    }
}

pub open spec fn op_keys_in(ns: Seq<TreeNode>, i: int) -> Seq<Seq<char>>
    decreases ns.len() - i,
{
    if i < 0 || i >= ns.len() {
        Seq::empty()
    } else {
        op_keys(ns[i]) + op_keys_in(ns, i + 1)
    }
}

proof fn lemma_op_keys_kids(n: TreeNode, i: int)
    requires
        0 <= i <= n.children@.len(),
    ensures
        op_keys_kids(n, i) == op_keys_in(n.children@, i),
    decreases n.children@.len() - i,
{
    if i < n.children@.len() {
        lemma_op_keys_kids(n, i + 1);
    }
}

proof fn lemma_op_keys_push(ns: Seq<TreeNode>, x: TreeNode, i: int)
    requires
        0 <= i <= ns.len(),
    ensures
        op_keys_in(ns.push(x), i) == op_keys_in(ns, i) + op_keys(x),
    decreases ns.len() - i,
{
    if i < ns.len() {
        lemma_op_keys_push(ns, x, i + 1);
        assert(ns.push(x)[i] == ns[i]);
        assert(op_keys_in(ns.push(x), i) =~= op_keys_in(ns, i) + op_keys(x));
    } else {
        assert(ns.push(x)[i] == x);
        assert(op_keys_in(ns.push(x), i + 1) =~= Seq::<Seq<char>>::empty());
        assert(op_keys_in(ns.push(x), i) =~= op_keys_in(ns, i) + op_keys(x));
    }
}

/// The keys a map of marks holds, as a set.
pub open spec fn marked(m: StrMap<()>) -> Set<Seq<char>> {
    Set::new(|x: Seq<char>| m.has(x))
}

/// `n` and what is below it are drawn in order, the operations of `before`
/// having been drawn already: an operation is expanded where it is drawn
/// first and is a leaf wherever it is drawn again.
pub open spec fn first_drawn(n: TreeNode, before: Set<Seq<char>>) -> bool
    decreases n, 1int, 0int,
{
    &&& (n.key is Operation ==> (n.repeat <==> before.contains(node_id(n))))
    &&& first_drawn_kids(
        n,
        0,
        if n.key is Operation && !n.repeat {
            before.insert(node_id(n))
        } else {
            before
        },
    )
}

pub open spec fn first_drawn_kids(n: TreeNode, i: int, before: Set<Seq<char>>) -> bool
    decreases n, 0int, n.children@.len() - i,
{
    if i < 0 || i >= n.children@.len() {
        true
    } else {
        &&& first_drawn(n.children@[i], before)
        &&& first_drawn_kids(n, i + 1, before + op_keys(n.children@[i]).to_set())
    }
}

/// `ns` from position `i` on are drawn in order after `before`.
pub open spec fn first_drawn_in(ns: Seq<TreeNode>, i: int, before: Set<Seq<char>>) -> bool
    decreases ns.len() - i,
{
    if i < 0 || i >= ns.len() {
        true
    } else {
        &&& first_drawn(ns[i], before)
        &&& first_drawn_in(ns, i + 1, before + op_keys(ns[i]).to_set())
    }
}

proof fn lemma_first_drawn_kids(n: TreeNode, i: int, before: Set<Seq<char>>)
    requires
        0 <= i <= n.children@.len(),
    ensures
        first_drawn_kids(n, i, before) == first_drawn_in(n.children@, i, before),
    decreases n.children@.len() - i,
{
    if i < n.children@.len() {
        lemma_first_drawn_kids(n, i + 1, before + op_keys(n.children@[i]).to_set());
    }
}

proof fn lemma_first_drawn_push(ns: Seq<TreeNode>, x: TreeNode, i: int, before: Set<Seq<char>>)
    requires
        0 <= i <= ns.len(),
    ensures
        first_drawn_in(ns.push(x), i, before) == (first_drawn_in(ns, i, before) && first_drawn(
            x,
            before + op_keys_in(ns, i).to_set(),
        )),
    decreases ns.len() - i,
{
    if i < ns.len() {
        let more = before + op_keys(ns[i]).to_set();
        lemma_first_drawn_push(ns, x, i + 1, more);
        assert(ns.push(x)[i] == ns[i]);
        assert(more + op_keys_in(ns, i + 1).to_set() =~= before + op_keys_in(ns, i).to_set()) by {
            assert(op_keys_in(ns, i) == op_keys(ns[i]) + op_keys_in(ns, i + 1));
            assert forall|k: Seq<char>| #[trigger] op_keys_in(ns, i).contains(k) <==> (op_keys(ns[i]).contains(k)
                || op_keys_in(ns, i + 1).contains(k)) by {
                vstd::seq_lib::lemma_seq_concat_contains_all_elements(op_keys(ns[i]), op_keys_in(ns, i + 1), k);
            }
        }
        assert(first_drawn_in(ns.push(x), i, before) == (first_drawn(ns[i], before) && first_drawn_in(
            ns.push(x),
            i + 1,
            more,
        )));
        assert(first_drawn_in(ns, i, before) == (first_drawn(ns[i], before) && first_drawn_in(ns, i + 1, more)));
    } else {
        assert(ns.push(x)[i] == x);
        assert(op_keys_in(ns, i) =~= Seq::<Seq<char>>::empty());
        assert(before + op_keys_in(ns, i).to_set() =~= before);
        assert(first_drawn_in(ns.push(x), i + 1, before + op_keys(x).to_set()));
        assert(first_drawn_in(ns, i, before));
    }
}

proof fn lemma_spread_kids(n: TreeNode, i: int, entries: StrMap<Entry>, b: StrMap<Operation>, c: StrMap<Operation>)
    requires
        0 <= i <= n.children@.len(),
        forall|t: int| i <= t < n.children@.len() ==> {
            let kid = #[trigger] n.children@[t];
            &&& (wire(b, c, node_id(n), node_id(kid)) matches Some(w) && kid.edge == w.0 && note_ok(kid.note, w.1))
            &&& spread(kid, entries, b, c)
        },
        forall|t: int| i <= t < n.children@.len() - 1 ==> pair_lt(label_key(#[trigger] n.children@[t]), label_key(n.children@[t + 1])),
    ensures
        spread_kids(n, i, entries, b, c),
    decreases n.children@.len() - i,
{
    if i < n.children@.len() {
        lemma_spread_kids(n, i + 1, entries, b, c);
    }
}

/// A callsign paired with the label it is drawn under.
pub open spec fn tagged(entries: StrMap<Entry>, t: Seq<char>) -> (Seq<char>, Seq<char>) {
    (display(entries.value_of(t)@.operation), t)
}

/// What inserting into a sequence does to what it contains.
proof fn lemma_insert_contains<A>(s: Seq<A>, pos: int, x: A)
    requires
        0 <= pos <= s.len(),
    ensures
        forall|y: A| #[trigger] s.insert(pos, x).contains(y) <==> (s.contains(y) || y == x),
{
    assert forall|y: A| #[trigger] s.insert(pos, x).contains(y) <==> (s.contains(y) || y == x) by {
        let nv = s.insert(pos, x);
        if nv.contains(y) {
            let w = choose|w: int| 0 <= w < nv.len() && nv[w] == y;
            if w < pos {
                assert(s[w] == y);
            } else if w > pos {
                assert(s[w - 1] == y);
            }
        }
        if s.contains(y) {
            let w = choose|w: int| 0 <= w < s.len() && s[w] == y;
            if w < pos {
                assert(nv[w] == y);
            } else {
                assert(nv[w + 1] == y);
            }
        }
        if y == x {
            assert(nv[pos] == y);
        }
    }
}

/// The targets of `w`, each paired with the label it is drawn under, in order.
fn order_targets<V>(w: &StrMap<V>, entries: &StrMap<Entry>) -> (list: Vec<(String, String)>)
    requires
        forall|t: Seq<char>| #[trigger] w.has(t) ==> entries.has(t),
    ensures
        pairs_sorted(pair_views(list@)),
        forall|x: (Seq<char>, Seq<char>)| #[trigger] pair_views(list@).contains(x) <==> (w.has(x.1) && x == tagged(*entries, x.1)),
{
    proof {
        use_type_invariant(w);
    }
    let mut list: Vec<(String, String)> = Vec::new();
    let n = w.len();
    let mut i: usize = 0;
    while i < n
        invariant
            n == w.key_list().len(),
            w.inv(),
            i <= n,
            forall|t: Seq<char>| #[trigger] w.has(t) ==> entries.has(t),
            pairs_sorted(pair_views(list@)),
            forall|x: (Seq<char>, Seq<char>)| #[trigger] pair_views(list@).contains(x) <==> (w.key_list().take(i as int).contains(x.1)
                && x == tagged(*entries, x.1)),
        decreases n - i,
    {
        let t = w.key_at(i);
        proof {
            w.lemma_index_of(i as int);
            assert(w.has(t@));
        }
        let label = match entries.get(t.as_str()) {
            Some(e) => e.operation.display_name(),
            None => String::new(),
        };
        let ghost lb = pair_views(list@);
        let ghost it = (label@, t@);
        proof {
            assert(it == tagged(*entries, t@));
            assert(!w.key_list().take(i as int).contains(t@)) by {
                if w.key_list().take(i as int).contains(t@) {
                    let p = choose|p: int| 0 <= p < i && w.key_list().take(i as int)[p] == t@;
                    assert(seq_lt(w.key_list()[p], w.key_list()[i as int]));
                    lemma_lt_irreflexive(t@);
                }
            }
            assert(!lb.contains(it));
        }
        insert_pair(&mut list, (label, t.clone()));
        proof {
            let pos = choose|pos: int| 0 <= pos <= lb.len() && pair_views(list@) == lb.insert(pos, it);
            lemma_insert_contains(lb, pos, it);
            assert(w.key_list().take(i + 1) =~= w.key_list().take(i as int).push(t@));
            crate::text::lemma_push_contains(w.key_list().take(i as int), t@);
        }
        i = i + 1;
    }
    proof {
        assert(w.key_list().take(n as int) =~= w.key_list());
    }
    list
}

/// The keys held in `placed` are no more than those of `entries`.
proof fn lemma_placed_bound(placed: StrMap<()>, entries: StrMap<Entry>)
    requires
        placed.inv(),
        entries.inv(),
        forall|x: Seq<char>| #[trigger] placed.has(x) ==> entries.has(x),
    ensures
        placed.key_list().len() <= entries.key_list().len(),
{
    assert forall|x: Seq<char>| #[trigger] placed.key_list().contains(x) implies entries.key_list().contains(x) by {
        assert(placed.has(x));
    }
    crate::text::lemma_sorted_len_bound(placed.key_list(), entries.key_list());
}

/// The edge and grade a node is reached by: its parent's wire, or a plain
/// live link for the top of the forest.
pub open spec fn reached_by(w: Option<StrMap<(Edge, Confidence)>>, t: Seq<char>) -> (Edge, Confidence) {
    match w {
        Some(w) => w.value_of(t),
        None => (Edge::Live, Confidence::Confirmed),
    }
}

/// Grow the trees for a list of operations, each reached as `w` says.
fn spread_list(
    list: &Vec<(String, String)>,
    w: Option<&StrMap<(Edge, Confidence)>>,
    b: &StrMap<Operation>,
    c: &StrMap<Operation>,
    entries: &StrMap<Entry>,
    wires: &StrMap<StrMap<(Edge, Confidence)>>,
    expanded: &mut StrMap<()>,
) -> (kids: Vec<TreeNode>)
    requires
        all_wires_ok(*b, *c, *entries, *wires),
        forall|x: Seq<char>| #[trigger] entries.has(x) <==> listed(*b, *c, x),
        forall|x: Seq<char>| #[trigger] old(expanded).has(x) ==> entries.has(x),
        forall|q: int| 0 <= q < list.len() ==> entries.has(#[trigger] pair_views(list@)[q].1) && pair_views(list@)[q]
            == tagged(*entries, pair_views(list@)[q].1) && (w matches Some(w) ==> w.has(pair_views(list@)[q].1)),
        pairs_sorted(pair_views(list@)),
    ensures
        forall|x: Seq<char>| #[trigger] final(expanded).has(x) ==> entries.has(x),
        old(expanded).key_list().len() <= final(expanded).key_list().len(),
        forall|x: Seq<char>| #[trigger] final(expanded).has(x) <==> (old(expanded).has(x) || op_keys_in(kids@, 0).contains(x)),
        op_keys_in(kids@, 0).no_duplicates(),
        first_drawn_in(kids@, 0, marked(*old(expanded))),
        forall|x: Seq<char>| #[trigger] op_keys_in(kids@, 0).contains(x) ==> !old(expanded).has(x) && (called(*b, *c, x)
            || exists|q: int| 0 <= q < list.len() && #[trigger] pair_views(list@)[q].1 == x),
        kids.len() == list.len(),
        forall|t: int| 0 <= t < kids.len() ==> {
            let kid = #[trigger] kids@[t];
            &&& label_key(kid) == pair_views(list@)[t]
            &&& (kid.edge, kid.note) == (reached_by(opt_deref(w), node_id(kid)).0, kid.note)
            &&& note_ok(kid.note, reached_by(opt_deref(w), node_id(kid)).1)
            &&& spread(kid, *entries, *b, *c)
            &&& (!old(expanded).has(node_id(kid)) && !called(*b, *c, node_id(kid)) ==> !kid.repeat)
        },
        forall|q: int| 0 <= q < list.len() ==> final(expanded).has(#[trigger] pair_views(list@)[q].1),
    decreases entries.key_list().len() - old(expanded).key_list().len(), 1int,
{
    proof {
        use_type_invariant(&*expanded);
        use_type_invariant(entries);
        lemma_placed_bound(*expanded, *entries);
    }
    let ghost start = *expanded;
    let ghost lv = pair_views(list@);
    let mut kids: Vec<TreeNode> = Vec::new();
    let mut j: usize = 0;
    while j < list.len()
        invariant
            all_wires_ok(*b, *c, *entries, *wires),
            forall|x: Seq<char>| #[trigger] entries.has(x) <==> listed(*b, *c, x),
            lv == pair_views(list@),
            forall|q: int| 0 <= q < list.len() ==> entries.has(#[trigger] lv[q].1) && lv[q] == tagged(*entries, lv[q].1)
                && (w matches Some(w) ==> w.has(lv[q].1)),
            pairs_sorted(lv),
            j <= list.len(),
            kids.len() == j,
            start == *old(expanded),
            forall|x: Seq<char>| #[trigger] expanded.has(x) ==> entries.has(x),
            start.key_list().len() <= expanded.key_list().len(),
            start.key_list().len() <= entries.key_list().len(),
            forall|x: Seq<char>| #[trigger] expanded.has(x) <==> (start.has(x) || op_keys_in(kids@, 0).contains(x)),
            op_keys_in(kids@, 0).no_duplicates(),
            first_drawn_in(kids@, 0, marked(start)),
            forall|x: Seq<char>| #[trigger] op_keys_in(kids@, 0).contains(x) ==> !start.has(x) && (called(*b, *c, x)
                || exists|q: int| 0 <= q < j && #[trigger] lv[q].1 == x),
            forall|t: int| 0 <= t < kids.len() ==> {
                let kid = #[trigger] kids@[t];
                &&& label_key(kid) == lv[t]
                &&& (kid.edge, kid.note) == (reached_by(opt_deref(w), node_id(kid)).0, kid.note)
                &&& note_ok(kid.note, reached_by(opt_deref(w), node_id(kid)).1)
                &&& spread(kid, *entries, *b, *c)
                &&& (!start.has(node_id(kid)) && !called(*b, *c, node_id(kid)) ==> !kid.repeat)
            },
            forall|q: int| 0 <= q < j ==> expanded.has(#[trigger] lv[q].1),
        decreases list.len() - j,
    {
        proof {
            use_type_invariant(&*expanded);
            use_type_invariant(entries);
            lemma_placed_bound(*expanded, *entries);
        }
        let ghost before = kids@;
        let ghost pre = *expanded;
        let t = &list[j].1;
        assert(lv[j as int].1 == t@);
        let (edge, grade) = match w {
            Some(w) => match w.get(t.as_str()) {
                Some(eg) => *eg,
                None => (Edge::Live, Confidence::Confirmed),
            },
            None => (Edge::Live, Confidence::Confirmed),
        };
        assert((edge, grade) == reached_by(opt_deref(w), t@));
        let node = grow(t, edge, grade, b, c, entries, wires, expanded);
        let ghost nv = node;
        proof {
            lemma_op_keys_push(before, nv, 0);
            let bk = op_keys_in(before, 0);
            let nk = op_keys(nv);
            assert forall|a: int, z: int| 0 <= a < bk.len() && 0 <= z < nk.len() implies bk[a] != nk[z] by {
                assert(bk.contains(bk[a]));
                assert(nk.contains(nk[z]));
                assert(pre.has(bk[a]));
            }
            vstd::seq_lib::lemma_no_dup_in_concat(bk, nk);
            // Keys distinct from the ones already listed were never expanded here.
            if !start.has(t@) && !called(*b, *c, t@) {
                assert(!pre.has(t@)) by {
                    if pre.has(t@) {
                        assert(bk.contains(t@));
                        let q = choose|q: int| 0 <= q < j && #[trigger] lv[q].1 == t@;
                        assert(lv[q] == tagged(*entries, t@));
                        assert(lv[j as int] == tagged(*entries, t@));
                        assert(crate::sitrep::pair_lt(lv[q], lv[j as int]));
                        crate::sitrep::lemma_pair_order(lv[q], lv[q], lv[q]);
                    }
                }
            }
        }
        kids.push(node);
        proof {
            assert(kids@ == before.push(nv));
            assert(marked(pre) =~= marked(start) + op_keys_in(before, 0).to_set());
            lemma_first_drawn_push(before, nv, 0, marked(start));
            let all = op_keys_in(kids@, 0);
            assert(all == op_keys_in(before, 0) + op_keys(nv));
            assert forall|x: Seq<char>| #[trigger] expanded.has(x) <==> (start.has(x) || all.contains(x)) by {
                vstd::seq_lib::lemma_seq_concat_contains_all_elements(op_keys_in(before, 0), op_keys(nv), x);
            }
            assert forall|x: Seq<char>| #[trigger] all.contains(x) implies !start.has(x) && (called(*b, *c, x)
                || exists|q: int| 0 <= q < j + 1 && #[trigger] lv[q].1 == x) by {
                vstd::seq_lib::lemma_seq_concat_contains_all_elements(op_keys_in(before, 0), op_keys(nv), x);
                if op_keys(nv).contains(x) {
                    assert(!pre.has(x));
                    if x == t@ {
                        assert(lv[j as int].1 == x);
                    }
                } else {
                    if !called(*b, *c, x) {
                        let q = choose|q: int| 0 <= q < j && #[trigger] lv[q].1 == x;
                        assert(lv[q].1 == x);
                    }
                }
            }
            assert forall|t2: int| 0 <= t2 < kids.len() implies {
                let kid = #[trigger] kids@[t2];
                &&& label_key(kid) == lv[t2]
                &&& (kid.edge, kid.note) == (reached_by(opt_deref(w), node_id(kid)).0, kid.note)
                &&& note_ok(kid.note, reached_by(opt_deref(w), node_id(kid)).1)
                &&& spread(kid, *entries, *b, *c)
                &&& (!start.has(node_id(kid)) && !called(*b, *c, node_id(kid)) ==> !kid.repeat)
            } by {
                if t2 < j {
                    assert(kids@[t2] == before[t2]);
                } else {
                    assert(kids@[t2] == nv);
                    assert(label_key(nv) == (nv.label@, t@));
                }
            }
            assert forall|q: int| 0 <= q < j + 1 implies expanded.has(#[trigger] lv[q].1) by {
                if q < j {
                    assert(pre.has(lv[q].1));
                } else {
                    if !nv.repeat {
                        assert(op_keys(nv) == seq![t@] + op_keys_kids(nv, 0));
                        assert(op_keys(nv)[0] == t@);
                        assert(op_keys(nv).contains(t@));
                    }
                }
            }
        }
        j = j + 1;
    }
    kids
}

/// `*w` as a value, for specifications.
pub open spec fn opt_deref(w: Option<&StrMap<(Edge, Confidence)>>) -> Option<StrMap<(Edge, Confidence)>> {
    match w {
        Some(w) => Some(*w),
        None => None,
    }
}

/// The tree of one operation reached by a call with the given edge and
/// grade: expanded the first time it is met, a leaf after that.
fn grow(
    k: &String,
    edge: Edge,
    grade: Confidence,
    b: &StrMap<Operation>,
    c: &StrMap<Operation>,
    entries: &StrMap<Entry>,
    wires: &StrMap<StrMap<(Edge, Confidence)>>,
    expanded: &mut StrMap<()>,
) -> (n: TreeNode)
    requires
        all_wires_ok(*b, *c, *entries, *wires),
        forall|x: Seq<char>| #[trigger] entries.has(x) <==> listed(*b, *c, x),
        forall|x: Seq<char>| #[trigger] old(expanded).has(x) ==> entries.has(x),
        entries.has(k@),
    ensures
        node_id(n) == k@,
        n.label@ == display(entries.value_of(k@)@.operation),
        n.edge == edge,
        note_ok(n.note, grade),
        spread(n, *entries, *b, *c),
        n.repeat == old(expanded).has(k@),
        first_drawn(n, marked(*old(expanded))),
        op_keys(n).no_duplicates(),
        forall|x: Seq<char>| #[trigger] op_keys(n).contains(x) ==> !old(expanded).has(x) && (x == k@ || called(*b, *c, x)),
        forall|x: Seq<char>| #[trigger] final(expanded).has(x) <==> (old(expanded).has(x) || op_keys(n).contains(x)),
        forall|x: Seq<char>| #[trigger] final(expanded).has(x) ==> entries.has(x),
        old(expanded).key_list().len() <= final(expanded).key_list().len(),
    decreases entries.key_list().len() - old(expanded).key_list().len(), 0int,
{
    let ghost start = *expanded;
    let e = entries.get(k.as_str()).unwrap();
    let mut node = TreeNode::new(NodeKey::Operation(k.clone()), e.operation.display_name());
    node.edge = edge;
    if grade == Confidence::Probable {
        let mark = owned("?");
        proof {
            reveal_strlit("?");
        }
        node.note = Some(mark);
    }
    if expanded.contains_key(k.as_str()) {
        node.repeat = true;
        node.touched = e.status.holds_branch() || edge.is_change();
        proof {
            assert(op_keys(node) =~= Seq::<Seq<char>>::empty());
            assert(marked(start).contains(k@));
            assert(first_drawn(node, marked(start)));
        }
        return node;
    }
    expanded.put(k.clone(), ());
    proof {
        assert(marked(*expanded) =~= marked(start).insert(k@));
        use_type_invariant(&*expanded);
        use_type_invariant(entries);
        lemma_placed_bound(*expanded, *entries);
        assert(wires.has(k@));
    }
    let w = wires.get(k.as_str()).unwrap();
    proof {
        assert forall|t: Seq<char>| #[trigger] w.has(t) implies entries.has(t) by {
            assert(wire(*b, *c, k@, t) is Some);
        }
    }
    let list = order_targets(w, entries);
    proof {
        assert forall|q: int| 0 <= q < list.len() implies entries.has(#[trigger] pair_views(list@)[q].1) && pair_views(list@)[q]
            == tagged(*entries, pair_views(list@)[q].1) && (Some(w) matches Some(w) ==> w.has(pair_views(list@)[q].1)) by {
            assert(pair_views(list@).contains(pair_views(list@)[q]));
            assert(wire(*b, *c, k@, pair_views(list@)[q].1) is Some);
        }
    }
    let kids = spread_list(&list, Some(w), b, c, entries, wires, expanded);
    let mut any = false;
    let mut i: usize = 0;
    while i < kids.len()
        invariant
            i <= kids.len(),
            any == exists|t: int| 0 <= t < i && (#[trigger] kids@[t]).touched,
        decreases kids.len() - i,
    {
        if kids[i].touched {
            any = true;
        }
        i = i + 1;
    }
    node.touched = e.status.holds_branch() || edge.is_change() || any;
    node.children = kids;
    proof {
        let lv = pair_views(list@);
        assert(node.children@ == kids@);
        lemma_op_keys_kids(node, 0);
        assert forall|t: int| 0 <= t < node.children@.len() implies {
            let kid = #[trigger] node.children@[t];
            &&& (wire(*b, *c, node_id(node), node_id(kid)) matches Some(w2) && kid.edge == w2.0 && note_ok(kid.note, w2.1))
            &&& spread(kid, *entries, *b, *c)
        } by {
            let kid = kids@[t];
            assert(label_key(kid) == lv[t]);
            assert(w.has(lv[t].1));
            assert(wire(*b, *c, k@, node_id(kid)) == Some(w.value_of(node_id(kid))));
        }
        assert forall|t: int| 0 <= t < node.children@.len() - 1 implies pair_lt(label_key(#[trigger] node.children@[t]), label_key(node.children@[t + 1])) by {
            assert(label_key(kids@[t]) == lv[t]);
            assert(label_key(kids@[t + 1]) == lv[t + 1]);
        }
        lemma_spread_kids(node, 0, *entries, *b, *c);
        lemma_first_drawn_kids(node, 0, marked(start).insert(k@));
        assert(!marked(start).contains(k@));
        assert(first_drawn(node, marked(start)));
        assert forall|t: Seq<char>| #[trigger] wire(*b, *c, k@, t) is Some implies exists|i: int|
            0 <= i < node.children@.len() && node_id(#[trigger] node.children@[i]) == t by {
            assert(w.has(t));
            assert(lv.contains(tagged(*entries, t)));
            let q = choose|q: int| 0 <= q < lv.len() && lv[q] == tagged(*entries, t);
            assert(label_key(kids@[q]) == lv[q]);
        }
        assert(spread(node, *entries, *b, *c));
        assert(op_keys(node) == seq![k@] + op_keys_in(kids@, 0));
        assert(seq![k@][0] == k@);
        assert forall|a: int, z: int| 0 <= a < 1 && 0 <= z < op_keys_in(kids@, 0).len() implies seq![k@][a] != op_keys_in(kids@, 0)[z] by {
            assert(op_keys_in(kids@, 0).contains(op_keys_in(kids@, 0)[z]));
        }
        vstd::seq_lib::lemma_no_dup_in_concat(seq![k@], op_keys_in(kids@, 0));
        assert forall|x: Seq<char>| #[trigger] op_keys(node).contains(x) implies !start.has(x) && (x == k@ || called(*b, *c, x)) by {
            vstd::seq_lib::lemma_seq_concat_contains_all_elements(seq![k@], op_keys_in(kids@, 0), x);
            if op_keys_in(kids@, 0).contains(x) && !called(*b, *c, x) {
                let q = choose|q: int| 0 <= q < list.len() && #[trigger] lv[q].1 == x;
                assert(lv.contains(lv[q]));
                assert(w.has(x));
                assert(wire(*b, *c, k@, x) is Some);
                assert(listed(*b, *c, k@));
            }
        }
        assert forall|x: Seq<char>| #[trigger] expanded.has(x) <==> (start.has(x) || op_keys(node).contains(x)) by {
            vstd::seq_lib::lemma_seq_concat_contains_all_elements(seq![k@], op_keys_in(kids@, 0), x);
        }
    }
    node
}

/// An entry point: an operation nothing in the package calls, drawn in full.
pub open spec fn net_root_ok(b: StrMap<Operation>, c: StrMap<Operation>, entries: StrMap<Entry>, r: TreeNode) -> bool {
    &&& spread(r, entries, b, c)
    &&& !r.repeat
    &&& r.edge == Edge::Live
    &&& r.note is None
    &&& !called(b, c, node_id(r))
}

/// The `<cycle>` root: what no entry point reaches, in label order.
pub open spec fn cycle_root_ok(b: StrMap<Operation>, c: StrMap<Operation>, entries: StrMap<Entry>, r: TreeNode) -> bool {
    &&& r.key is External
    &&& node_id(r) == "<cycle>"@
    &&& r.label@ == "<cycle>"@
    &&& r.edge == Edge::Live
    &&& !r.repeat
    &&& r.note is None
    &&& r.touched == exists|t: int| 0 <= t < r.children@.len() && (#[trigger] r.children@[t]).touched
    &&& r.children@.len() > 0
    &&& forall|t: int| 0 <= t < r.children@.len() ==> spread(#[trigger] r.children@[t], entries, b, c)
        && r.children@[t].edge == Edge::Live && r.children@[t].note is None
    &&& forall|t: int| 0 <= t < r.children@.len() - 1 ==> pair_lt(label_key(#[trigger] r.children@[t]), label_key(r.children@[t + 1]))
}

/// The first `m` roots are every entry point, in label order; after them at
/// most one `<cycle>` root, there only when some operation is expanded under
/// no entry point, and holding exactly those operations.
pub open spec fn net_split(b: StrMap<Operation>, c: StrMap<Operation>, entries: StrMap<Entry>, roots: Seq<TreeNode>, m: int) -> bool {
    &&& 0 <= m <= roots.len()
    &&& forall|t: int| 0 <= t < m ==> net_root_ok(b, c, entries, #[trigger] roots[t])
    &&& forall|x: int, y: int| 0 <= x < y < m ==> pair_lt(label_key(#[trigger] roots[x]), label_key(#[trigger] roots[y]))
    &&& forall|k: Seq<char>| #[trigger] entries.has(k) && !called(b, c, k) ==> exists|t: int| 0 <= t < m && node_id(#[trigger] roots[t]) == k
    &&& m < roots.len() ==> {
        &&& roots.len() == m + 1
        &&& cycle_root_ok(b, c, entries, roots[m])
        &&& forall|t: int| 0 <= t < roots[m].children@.len() ==> !op_keys_in(roots.take(m), 0).contains(
            node_id(#[trigger] roots[m].children@[t]),
        )
        &&& forall|k: Seq<char>| #[trigger] entries.has(k) && !op_keys_in(roots.take(m), 0).contains(k) ==> exists|t: int|
            0 <= t < roots[m].children@.len() && node_id(#[trigger] roots[m].children@[t]) == k
    }
}

/// The call forest expands every operation exactly once, where it is first
/// drawn; wherever else it is drawn it is a leaf.
pub open spec fn net_forest_ok(b: StrMap<Operation>, c: StrMap<Operation>, entries: StrMap<Entry>, roots: Seq<TreeNode>) -> bool {
    &&& op_keys_in(roots, 0).no_duplicates()
    &&& first_drawn_in(roots, 0, Set::empty())
    &&& forall|x: Seq<char>| #[trigger] op_keys_in(roots, 0).contains(x) <==> entries.has(x)
    &&& exists|m: int| net_split(b, c, entries, roots, m)
}

/// The wires out of every entry.
fn all_wires(
    b: &StrMap<Operation>,
    c: &StrMap<Operation>,
    remap: &StrMap<String>,
    back: &StrMap<String>,
    entries: &StrMap<Entry>,
) -> (wires: StrMap<StrMap<(Edge, Confidence)>>)
    requires
        remap_ok(*b, *c, *remap),
        back_ok(*b, *c, *back),
        forall|x: Seq<char>| #[trigger] entries.has(x) <==> listed(*b, *c, x),
    ensures
        all_wires_ok(*b, *c, *entries, wires),
{
    proof {
        use_type_invariant(entries);
    }
    let mut wires: StrMap<StrMap<(Edge, Confidence)>> = StrMap::new();
    let n = entries.len();
    let mut i: usize = 0;
    while i < n
        invariant
            remap_ok(*b, *c, *remap),
            back_ok(*b, *c, *back),
            forall|x: Seq<char>| #[trigger] entries.has(x) <==> listed(*b, *c, x),
            n == entries.key_list().len(),
            entries.inv(),
            i <= n,
            forall|k: Seq<char>| #[trigger] wires.has(k) <==> entries.key_list().take(i as int).contains(k),
            forall|k: Seq<char>| #[trigger] wires.has(k) ==> wires_ok(*b, *c, k, wires.value_of(k)),
        decreases n - i,
    {
        let k = entries.key_at(i);
        let w = wires_of(b, c, remap, back, entries, k.as_str());
        proof {
            entries.lemma_index_of(i as int);
            crate::text::lemma_push_contains(entries.key_list().take(i as int), k@);
            assert(entries.key_list().take(i + 1) =~= entries.key_list().take(i as int).push(k@));
        }
        wires.put(k.clone(), w);
        i = i + 1;
    }
    assert(entries.key_list().take(n as int) =~= entries.key_list());
    wires
}

/// Every operation some wire leads to.
fn called_set(
    b: &StrMap<Operation>,
    c: &StrMap<Operation>,
    entries: &StrMap<Entry>,
    wires: &StrMap<StrMap<(Edge, Confidence)>>,
) -> (hit: StrMap<()>)
    requires
        all_wires_ok(*b, *c, *entries, *wires),
        forall|x: Seq<char>| #[trigger] entries.has(x) <==> listed(*b, *c, x),
    ensures
        forall|t: Seq<char>| #[trigger] hit.has(t) <==> called(*b, *c, t),
{
    proof {
        use_type_invariant(wires);
    }
    let mut hit: StrMap<()> = StrMap::new();
    let n = wires.len();
    let mut i: usize = 0;
    while i < n
        invariant
            all_wires_ok(*b, *c, *entries, *wires),
            forall|x: Seq<char>| #[trigger] entries.has(x) <==> listed(*b, *c, x),
            n == wires.key_list().len(),
            wires.inv(),
            i <= n,
            forall|t: Seq<char>| #[trigger] hit.has(t) <==> exists|p: int| 0 <= p < i && wires.value_of(
                #[trigger] wires.key_list()[p],
            ).has(t),
        decreases n - i,
    {
        let w = wires.value_at(i);
        proof {
            wires.lemma_index_of(i as int);
            use_type_invariant(w);
        }
        let ghost h0 = hit;
        let m = w.len();
        let mut j: usize = 0;
        while j < m
            invariant
                m == w.key_list().len(),
                w.inv(),
                j <= m,
                forall|t: Seq<char>| #[trigger] hit.has(t) <==> (h0.has(t) || w.key_list().take(j as int).contains(t)),
            decreases m - j,
        {
            let t = w.key_at(j);
            proof {
                crate::text::lemma_push_contains(w.key_list().take(j as int), t@);
                assert(w.key_list().take(j + 1) =~= w.key_list().take(j as int).push(t@));
            }
            hit.put(t.clone(), ());
            j = j + 1;
        }
        proof {
            assert(w.key_list().take(m as int) =~= w.key_list());
            assert(*w == wires.value_of(wires.key_list()[i as int]));
            assert forall|t: Seq<char>| #[trigger] hit.has(t) <==> exists|p: int| 0 <= p < i + 1 && wires.value_of(
                #[trigger] wires.key_list()[p],
            ).has(t) by {
                if w.has(t) {
                    assert(wires.value_of(wires.key_list()[i as int]).has(t));
                }
                if exists|p: int| 0 <= p < i + 1 && wires.value_of(#[trigger] wires.key_list()[p]).has(t) {
                    let p = choose|p: int| 0 <= p < i + 1 && wires.value_of(#[trigger] wires.key_list()[p]).has(t);
                    if p < i {
                        assert(h0.has(t));
                    }
                }
            }
        }
        i = i + 1;
    }
    proof {
        assert forall|t: Seq<char>| #[trigger] hit.has(t) <==> called(*b, *c, t) by {
            if hit.has(t) {
                let p = choose|p: int| 0 <= p < n && wires.value_of(#[trigger] wires.key_list()[p]).has(t);
                let j = wires.key_list()[p];
                assert(wires.has(j));
                assert(wire(*b, *c, j, t) is Some);
            }
            if called(*b, *c, t) {
                let j = choose|j: Seq<char>| listed(*b, *c, j) && #[trigger] wire(*b, *c, j, t) is Some;
                assert(wires.has(j));
                let p = choose|p: int| 0 <= p < n && wires.key_list()[p] == j;
                assert(wires.value_of(wires.key_list()[p]).has(t));
            }
        }
    }
    hit
}

/// The keys of `entries` that `skip` lacks.
fn keys_without(entries: &StrMap<Entry>, skip: &StrMap<()>) -> (r: StrMap<()>)
    ensures
        forall|x: Seq<char>| #[trigger] r.has(x) <==> (entries.has(x) && !skip.has(x)),
{
    proof {
        use_type_invariant(entries);
    }
    let mut r: StrMap<()> = StrMap::new();
    let n = entries.len();
    let mut i: usize = 0;
    while i < n
        invariant
            n == entries.key_list().len(),
            entries.inv(),
            i <= n,
            forall|x: Seq<char>| #[trigger] r.has(x) <==> (entries.key_list().take(i as int).contains(x) && !skip.has(x)),
        decreases n - i,
    {
        let k = entries.key_at(i);
        proof {
            crate::text::lemma_push_contains(entries.key_list().take(i as int), k@);
            assert(entries.key_list().take(i + 1) =~= entries.key_list().take(i as int).push(k@));
        }
        if !skip.contains_key(k.as_str()) {
            r.put(k.clone(), ());
        }
        i = i + 1;
    }
    assert(entries.key_list().take(n as int) =~= entries.key_list());
    r
}

/// Lay the call graph out from its entry points. Cycles and shared callees
/// are expanded once; later appearances are drawn as leaves.
#[verifier::spinoff_prover]
#[verifier::rlimit(30)]
fn build_forest(
    b: &StrMap<Operation>,
    c: &StrMap<Operation>,
    remap: &StrMap<String>,
    back: &StrMap<String>,
    entries: &StrMap<Entry>,
) -> (roots: Vec<TreeNode>)
    requires
        remap_ok(*b, *c, *remap),
        back_ok(*b, *c, *back),
        forall|x: Seq<char>| #[trigger] entries.has(x) <==> listed(*b, *c, x),
    ensures
        net_forest_ok(*b, *c, *entries, roots@),
{
    broadcast use vstd::seq_lib::lemma_seq_concat_contains_all_elements;
    let wires = all_wires(b, c, remap, back, entries);
    let hit = called_set(b, c, entries, &wires);
    let tops = keys_without(entries, &hit);
    let top_list = order_targets(&tops, entries);
    proof {
        let lv = pair_views(top_list@);
        assert forall|q: int| 0 <= q < top_list.len() implies entries.has(#[trigger] pair_views(top_list@)[q].1)
            && pair_views(top_list@)[q] == tagged(*entries, pair_views(top_list@)[q].1) by {
            assert(lv.contains(lv[q]));
        }
    }
    let mut expanded: StrMap<()> = StrMap::new();
    proof {
        assert(marked(expanded) =~= Set::<Seq<char>>::empty());
    }
    let mut roots = spread_list(&top_list, None, b, c, entries, &wires, &mut expanded);
    let ghost m = roots@.len() as int;
    let ghost first = roots@;
    let ghost mid = expanded;
    proof {
        assert(marked(mid) =~= Set::<Seq<char>>::empty() + op_keys_in(first, 0).to_set());
        let lv = pair_views(top_list@);
        assert forall|t: int| 0 <= t < m implies net_root_ok(*b, *c, *entries, #[trigger] roots@[t]) by {
            assert(label_key(roots@[t]) == lv[t]);
            assert(lv.contains(lv[t]));
            assert(tops.has(lv[t].1));
        }
        assert forall|x: int, y: int| 0 <= x < y < m implies pair_lt(label_key(#[trigger] roots@[x]), label_key(#[trigger] roots@[y])) by {
            assert(label_key(roots@[x]) == lv[x]);
            assert(label_key(roots@[y]) == lv[y]);
        }
        assert forall|k: Seq<char>| #[trigger] entries.has(k) && !called(*b, *c, k) implies exists|t: int|
            0 <= t < m && node_id(#[trigger] roots@[t]) == k by {
            assert(tops.has(k));
            assert(lv.contains(tagged(*entries, k)));
            let q = choose|q: int| 0 <= q < lv.len() && lv[q] == tagged(*entries, k);
            assert(label_key(roots@[q]) == lv[q]);
        }
    }
    let left = keys_without(entries, &expanded);
    if left.len() > 0 {
        let left_list = order_targets(&left, entries);
        proof {
            let lv = pair_views(left_list@);
            assert forall|q: int| 0 <= q < left_list.len() implies entries.has(#[trigger] pair_views(left_list@)[q].1)
                && pair_views(left_list@)[q] == tagged(*entries, pair_views(left_list@)[q].1) by {
                assert(lv.contains(lv[q]));
            }
            use_type_invariant(&left);
            let x = left.key_list()[0];
            assert(left.has(x));
            assert(lv.contains(tagged(*entries, x)));
        }
        let kids = spread_list(&left_list, None, b, c, entries, &wires, &mut expanded);
        let cycle = crate::structure::root(owned("<cycle>"), kids);
        proof {
            reveal_strlit("<cycle>");
            assert(op_keys(cycle) == op_keys_kids(cycle, 0));
            lemma_op_keys_kids(cycle, 0);
            lemma_op_keys_push(first, cycle, 0);
            let bk = op_keys_in(first, 0);
            let nk = op_keys(cycle);
            assert forall|a: int, z: int| 0 <= a < bk.len() && 0 <= z < nk.len() implies bk[a] != nk[z] by {
                assert(bk.contains(bk[a]));
                assert(nk.contains(nk[z]));
                assert(mid.has(bk[a]));
            }
            vstd::seq_lib::lemma_no_dup_in_concat(bk, nk);
            let lv = pair_views(left_list@);
            assert(lv.len() > 0);
            assert forall|t: int| 0 <= t < cycle.children@.len() - 1 implies pair_lt(label_key(#[trigger] cycle.children@[t]), label_key(cycle.children@[t + 1])) by {
                assert(label_key(kids@[t]) == lv[t]);
                assert(label_key(kids@[t + 1]) == lv[t + 1]);
            }
        }
        roots.push(cycle);
        proof {
            assert(roots@ == first.push(cycle));
            lemma_first_drawn_kids(cycle, 0, marked(mid));
            assert(first_drawn(cycle, marked(mid)));
            lemma_first_drawn_push(first, cycle, 0, Set::empty());
            assert forall|x: Seq<char>| #[trigger] expanded.has(x) <==> op_keys_in(roots@, 0).contains(x) by {
                vstd::seq_lib::lemma_seq_concat_contains_all_elements(op_keys_in(first, 0), op_keys(cycle), x);
            }
            assert forall|x: Seq<char>| #[trigger] entries.has(x) implies expanded.has(x) by {
                if !mid.has(x) {
                    assert(left.has(x));
                    let lv = pair_views(left_list@);
                    assert(lv.contains(tagged(*entries, x)));
                    let q = choose|q: int| 0 <= q < lv.len() && lv[q] == tagged(*entries, x);
                    assert(expanded.has(lv[q].1));
                }
            }
            assert(net_split(*b, *c, *entries, roots@, m)) by {
                assert forall|t: int| 0 <= t < m implies net_root_ok(*b, *c, *entries, #[trigger] roots@[t]) by {
                    assert(roots@[t] == first[t]);
                }
                assert forall|x: int, y: int| 0 <= x < y < m implies pair_lt(label_key(#[trigger] roots@[x]), label_key(#[trigger] roots@[y])) by {
                    assert(roots@[x] == first[x]);
                    assert(roots@[y] == first[y]);
                }
                assert forall|k: Seq<char>| #[trigger] entries.has(k) && !called(*b, *c, k) implies exists|t: int|
                    0 <= t < m && node_id(#[trigger] roots@[t]) == k by {
                    let t = choose|t: int| 0 <= t < m && node_id(#[trigger] first[t]) == k;
                    assert(roots@[t] == first[t]);
                }
                assert(roots@.take(m) =~= first);
                assert(roots@[m] == cycle);
                let lv = pair_views(left_list@);
                assert forall|t: int| 0 <= t < cycle.children@.len() implies !op_keys_in(first, 0).contains(
                    node_id(#[trigger] cycle.children@[t]),
                ) by {
                    assert(cycle.children@[t] == kids@[t]);
                    assert(label_key(kids@[t]) == lv[t]);
                    assert(lv.contains(lv[t]));
                    assert(left.has(lv[t].1));
                    assert(!mid.has(lv[t].1));
                }
                assert forall|k: Seq<char>| #[trigger] entries.has(k) && !op_keys_in(first, 0).contains(k) implies exists|t: int|
                    0 <= t < cycle.children@.len() && node_id(#[trigger] cycle.children@[t]) == k by {
                    assert(!mid.has(k));
                    assert(left.has(k));
                    assert(lv.contains(tagged(*entries, k)));
                    let q = choose|q: int| 0 <= q < lv.len() && lv[q] == tagged(*entries, k);
                    assert(label_key(kids@[q]) == lv[q]);
                    assert(cycle.children@[q] == kids@[q]);
                }
            }
        }
    } else {
        proof {
            assert forall|x: Seq<char>| #[trigger] entries.has(x) implies expanded.has(x) by {
                if !expanded.has(x) {
                    assert(left.has(x));
                    assert(left.key_list().contains(x));
                }
            }
            assert(net_split(*b, *c, *entries, roots@, m));
        }
    }
    proof {
        assert forall|x: Seq<char>| #[trigger] op_keys_in(roots@, 0).contains(x) <==> entries.has(x) by {
            if op_keys_in(roots@, 0).contains(x) {
                assert(expanded.has(x));
            }
        }
    }
    roots
}

/// What the feed orders each entry by: its status, its callsign, its key.
pub open spec fn feed_items(entries: StrMap<Entry>) -> Seq<(Status, (Seq<char>, Seq<char>))> {
    Seq::new(
        entries.key_list().len(),
        |i: int| (entries.value_list()[i].status, (entries.value_list()[i].operation.callsign@, entries.key_list()[i])),
    )
}

/// The positions of the entries the feed lists, in the order it lists them.
pub open spec fn feed_seq(entries: StrMap<Entry>) -> Seq<int> {
    feed_by_name(feed_items(entries))
}

/// The statuses of the entries, in key order.
pub open spec fn statuses(entries: StrMap<Entry>) -> Seq<Status> {
    entries.value_list().map_values(|e: Entry| e.status)
}

/// Tally the statuses of every entry.
fn count(entries: &StrMap<Entry>) -> (c: Counts)
    ensures
        crate::sitrep::counts_of(c, statuses(*entries)),
{
    let ghost ss = statuses(*entries);
    let mut c = Counts::zero();
    let n = entries.len();
    let mut i: usize = 0;
    assert(ss.take(0) =~= Seq::<Status>::empty());
    while i < n
        invariant
            n == entries.value_list().len(),
            ss == statuses(*entries),
            i <= n,
            crate::sitrep::counts_of(c, ss.take(i as int)),
        decreases n - i,
    {
        let st = entries.value_at(i).status;
        crate::sitrep::record_into(&mut c, Ghost(ss.take(i as int)), st);
        assert(ss.take(i + 1) =~= ss.take(i as int).push(st));
        i = i + 1;
    }
    assert(ss.take(n as int) =~= ss);
    c
}

/// Both snapshots compared, operation by operation, and laid out as a call
/// forest from the entry points.
#[derive(Debug)]
pub struct Network {
    pub entries: StrMap<Entry>,
    pub roots: Vec<TreeNode>,
    pub counts: Counts,
    /// Resolved edges in the current snapshot.
    pub links: usize,
    /// Of those, how many rest on an inferred name match.
    pub probable: usize,
    /// Calls in the current snapshot that left the package.
    pub external: usize,
}

impl Default for Network {
    fn default() -> (n: Self)
        ensures
            n.entries.key_list().len() == 0,
            n.roots@.len() == 0,
            n.counts == Counts::zero_spec(),
            n.links == 0 && n.probable == 0 && n.external == 0,
    {
        Network {
            entries: StrMap::new(),
            roots: Vec::new(),
            counts: Counts::zero(),
            links: 0,
            probable: 0,
            external: 0,
        }
    }
}

/// What the traffic view compiled from two snapshots holds: one entry per
/// operation in either, each with its status and the method it overrides, the
/// counts of those statuses, the totals of the current snapshot's calls, and
/// the forest expanding every operation once.
pub open spec fn compiled(baseline: Dossier, current: Dossier, n: Network) -> bool {
    &&& forall|x: Seq<char>| #[trigger] n.entries.has(x) <==> listed(baseline.operations, current.operations, x)
    &&& forall|x: Seq<char>| #[trigger] n.entries.has(x) ==> entry_ok(
        baseline.operations,
        current.operations,
        x,
        n.entries.value_of(x)@,
    )
    &&& forall|x: Seq<char>| #[trigger] n.entries.has(x) ==> overrides_ok(
        source(baseline, current, x),
        baseline.operations,
        current.operations,
        n.entries.value_of(x)@.operation,
        n.entries.value_of(x)@.overrides,
    )
    &&& crate::sitrep::counts_of(n.counts, statuses(n.entries))
    &&& n.links == capped(links_total(current.operations.value_list()))
    &&& n.probable == capped(probable_total(current.operations.value_list()))
    &&& n.external == capped(external_total(current.operations.value_list()))
    &&& net_forest_ok(baseline.operations, current.operations, n.entries, n.roots@)
}

impl Network {
    /// Compare the operations of two snapshots: each gets a status, moved
    /// operations are folded into one entry and their callers redirected, and
    /// the whole is laid out as a forest that expands every operation once.
    pub fn compile(baseline: &Dossier, current: &Dossier) -> (n: Network)
        ensures
            compiled(*baseline, *current, n),
    {
        let b = &baseline.operations;
        let c = &current.operations;
        let entries = survey(baseline, current);
        let (remap, back) = remaps(b, c);
        let roots = build_forest(b, c, &remap, &back, &entries);
        let counts = count(&entries);
        let (links, probable, external) = tallies(c);
        Network { entries, roots, counts, links, probable, external }
    }

    /// The forest as drawable rows.
    pub fn rows(&self, changes_only: bool) -> (r: Vec<Row<'_>>)
        ensures
            r@.map_values(|w: Row| row_view(w)) == rows_of_roots(self.roots@, 0, changes_only),
    {
        flatten(self.roots.as_slice(), changes_only)
    }

    /// Changed entries, ordered for the feed: most disruptive status first,
    /// then by callsign.
    pub fn feed(&self) -> (f: Vec<&Entry>)
        ensures
            is_feed(feed_items(self.entries), feed_seq(self.entries)),
            f@.len() == feed_seq(self.entries).len(),
            forall|t: int| 0 <= t < f@.len() ==> *f@[t] == self.entries.value_list()[#[trigger] feed_seq(self.entries)[t]],
    {
        proof {
            use_type_invariant(&self.entries);
        }
        let ghost items_v = feed_items(self.entries);
        let n = self.entries.len();
        let mut items: Vec<(Status, (String, String))> = Vec::new();
        let mut i: usize = 0;
        while i < n
            invariant
                n == self.entries.key_list().len(),
                self.entries.inv(),
                items_v == feed_items(self.entries),
                i <= n,
                item_views(items@) == items_v.take(i as int),
            decreases n - i,
        {
            let e = self.entries.value_at(i);
            let name = e.operation.callsign.clone();
            let key = self.entries.key_at(i).clone();
            let ghost before = items@;
            items.push((e.status, (name, key)));
            proof {
                assert(item_views(items@) =~= item_views(before).push(items_v[i as int]));
                assert(items_v.take(i + 1) =~= items_v.take(i as int).push(items_v[i as int]));
            }
            i = i + 1;
        }
        proof {
            assert(items_v.take(n as int) =~= items_v);
            assert forall|a: int, b: int| 0 <= a < b < items_v.len() implies seq_lt(#[trigger] items_v[a].1.1, #[trigger] items_v[b].1.1) by {
                assert(items_v[a].1.1 == self.entries.key_list()[a]);
                assert(items_v[b].1.1 == self.entries.key_list()[b]);
            }
        }
        let idx = feed_positions(&items);
        let ghost order = positions(idx@);
        proof {
            lemma_is_feed(items_v, order);
        }
        let mut f: Vec<&Entry> = Vec::new();
        let mut t: usize = 0;
        while t < idx.len()
            invariant
                order == positions(idx@),
                order == feed_seq(self.entries),
                is_feed(items_v, order),
                items_v == feed_items(self.entries),
                self.entries.inv(),
                t <= idx.len(),
                f@.len() == t,
                forall|u: int| 0 <= u < t ==> *f@[u] == self.entries.value_list()[#[trigger] order[u]],
            decreases idx.len() - t,
        {
            proof {
                assert(order[t as int] == idx@[t as int] as int);
                assert(0 <= order[t as int] < items_v.len());
            }
            let e = self.entries.value_at(idx[t]);
            f.push(e);
            t = t + 1;
        }
        f
    }
}

} // verus!
