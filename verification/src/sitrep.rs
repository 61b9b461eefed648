//! Shared vocabulary for every view on the floor: how a thing changed, how the
//! change is tallied, and how a forest of changes is flattened for drawing.

use vstd::prelude::*;
use vstd::string::StrSliceExecFns;

use crate::strmap::StrMap;
use crate::text::{
    lemma_lt_irreflexive, lemma_lt_order, str_lt, chars_of, find_after_last, joined, lemma_after_last_bounds, lemma_push_contains, lemma_leaf_is_suffix, owned,
    seq_lt, spec_leaf, strictly_sorted,
};

verus! {

/// What happened to a class or an operation between the baseline and now.
#[derive(Clone, Copy, Debug, PartialEq, Eq, PartialOrd, Ord, Structural)]
pub enum Status {
    /// New, no baseline counterpart.
    Activated,
    /// Present at baseline, gone from the working tree.
    Burned,
    /// A class changed base classes.
    Realigned,
    /// An operation changed who it calls.
    Rerouted,
    /// Same thing, same connections, different module.
    Relocated,
    /// Contents changed but the connections held: a class's method set, or an
    /// operation's signature or decorators.
    Amended,
    /// Untouched itself, but sitting in the wake of a move made elsewhere: a
    /// callee relocated out from under it. Reported so the fact is visible,
    /// but too soft to count as this operation having changed.
    Wake,
    /// No observed change.
    Nominal,
}

/// Severity rank of a status: the order of the enum, most disruptive first.
pub open spec fn spec_rank(s: Status) -> nat {
    match s {
        Status::Activated => 0,
        Status::Burned => 1,
        Status::Realigned => 2,
        Status::Rerouted => 3,
        Status::Relocated => 4,
        Status::Amended => 5,
        Status::Wake => 6,
        Status::Nominal => 7,
    }
}

pub open spec fn spec_status_tag(s: Status) -> Seq<char> {
    match s {
        Status::Activated => "ACTIVATED"@,
        Status::Burned => "BURNED"@,
        Status::Realigned => "REALIGNED"@,
        Status::Rerouted => "REROUTED"@,
        Status::Relocated => "RELOCATED"@,
        Status::Amended => "AMENDED"@,
        Status::Wake => "WAKE"@,
        Status::Nominal => ""@,
    }
}

pub open spec fn spec_glyph(s: Status) -> Seq<char> {
    match s {
        Status::Activated => "+"@,
        Status::Burned => "-"@,
        Status::Realigned => "~"@,
        Status::Rerouted => "~"@,
        Status::Relocated => "→"@,
        Status::Amended => "*"@,
        Status::Wake => "≈"@,
        Status::Nominal => "·"@,
    }
}

impl Status {
    /// Statuses a class can carry, in legend order.
    pub const STRUCTURE: [Status; 5] = [
        Status::Activated,
        Status::Burned,
        Status::Realigned,
        Status::Relocated,
        Status::Amended,
    ];

    /// Statuses an operation can carry, in legend order.
    pub const NETWORK: [Status; 6] = [
        Status::Activated,
        Status::Burned,
        Status::Rerouted,
        Status::Relocated,
        Status::Amended,
        Status::Wake,
    ];

    pub fn tag(self) -> (r: &'static str)
        ensures
            r@ == spec_status_tag(self),
    {
        match self {
            Status::Activated => "ACTIVATED",
            Status::Burned => "BURNED",
            Status::Realigned => "REALIGNED",
            Status::Rerouted => "REROUTED",
            Status::Relocated => "RELOCATED",
            Status::Amended => "AMENDED",
            Status::Wake => "WAKE",
            Status::Nominal => "",
        }
    }

    pub fn glyph(self) -> (r: &'static str)
        ensures
            r@ == spec_glyph(self),
    {
        match self {
            Status::Activated => "+",
            Status::Burned => "-",
            // Realigned and Rerouted never share a view, so they share a glyph.
            Status::Realigned | Status::Rerouted => "~",
            Status::Relocated => "→",
            Status::Amended => "*",
            Status::Wake => "≈",
            Status::Nominal => "·",
        }
    }

    pub fn is_change(self) -> (r: bool)
        ensures
            r == (self != Status::Nominal),
    {
        !matches!(self, Status::Nominal)
    }

    /// Whether this status alone justifies keeping a branch on screen when the
    /// changes-only filter is on. A wake is worth reporting but not worth
    /// dragging a whole branch into view: a widely-called function moving
    /// would otherwise light up every one of its callers.
    pub fn holds_branch(self) -> (r: bool)
        ensures
            r == (self != Status::Nominal && self != Status::Wake),
    {
        self.is_change() && !matches!(self, Status::Wake)
    }

    /// Position in the severity order, most disruptive first.
    pub fn rank(self) -> (r: u8)
        ensures
            r == spec_rank(self),
    {
        match self {
            Status::Activated => 0,
            Status::Burned => 1,
            Status::Realigned => 2,
            Status::Rerouted => 3,
            Status::Relocated => 4,
            Status::Amended => 5,
            Status::Wake => 6,
            Status::Nominal => 7,
        }
    }
}

/// The state of the link that reaches a node from its parent. Inheritance links
/// are static, so only call traffic uses anything but `Live`.
#[derive(Clone, Copy, Debug, PartialEq, Eq, Structural)]
pub enum Edge {
    Live,
    /// Traffic that did not exist at baseline.
    Opened,
    /// Traffic present at baseline and now silent.
    Closed,
}

/// The tag a link's traffic is labelled with.
pub open spec fn spec_edge_tag(e: Edge) -> Seq<char> {
    match e {
        Edge::Live => ""@,
        Edge::Opened => "NEW TRAFFIC"@,
        Edge::Closed => "WENT DARK"@,
    }
}

impl Edge {
    pub fn tag(self) -> (r: &'static str)
        ensures
            r@ == spec_edge_tag(self),
    {
        match self {
            Edge::Live => "",
            Edge::Opened => "NEW TRAFFIC",
            Edge::Closed => "WENT DARK",
        }
    }

    pub fn is_change(self) -> (r: bool)
        ensures
            r == (self != Edge::Live),
    {
        !matches!(self, Edge::Live)
    }
}

/// What a tree node stands for.
#[derive(Clone, Debug, PartialEq, Eq)]
pub enum NodeKey {
    /// A class, by qualified name.
    Subject(String),
    /// A function or method, by callsign.
    Operation(String),
    /// Something outside the package we only know by name.
    External(String),
}

#[derive(Debug)]
pub struct TreeNode {
    pub key: NodeKey,
    pub label: String,
    pub children: Vec<TreeNode>,
    /// True when this node, its link, or anything below it changed.
    pub touched: bool,
    pub edge: Edge,
    /// Already expanded elsewhere in the forest; drawn as a leaf.
    pub repeat: bool,
    /// Short dim annotation drawn after the label.
    pub note: Option<String>,
}

impl TreeNode {
    pub fn new(key: NodeKey, label: String) -> (n: Self)
        ensures
            n.key == key,
            n.label == label,
            n.children@.len() == 0,
            !n.touched,
            n.edge == Edge::Live,
            !n.repeat,
            n.note is None,
    {
        Self {
            key,
            label,
            children: Vec::new(),
            touched: false,
            edge: Edge::Live,
            repeat: false,
            note: None,
        }
    }
}

#[derive(Clone, Copy, Debug)]
pub struct Counts {
    pub activated: usize,
    pub burned: usize,
    pub realigned: usize,
    pub rerouted: usize,
    pub relocated: usize,
    pub amended: usize,
    pub wake: usize,
    pub nominal: usize,
}

impl Default for Counts {
    fn default() -> (c: Self)
        ensures
            c == Counts::zero_spec(),
    {
        Counts::zero()
    }
}

impl Counts {
    pub open spec fn zero_spec() -> Counts {
        Counts {
            activated: 0,
            burned: 0,
            realigned: 0,
            rerouted: 0,
            relocated: 0,
            amended: 0,
            wake: 0,
            nominal: 0,
        }
    }

    /// A tally with nothing recorded.
    pub fn zero() -> (c: Self)
        ensures
            c == Counts::zero_spec(),
    {
        Counts {
            activated: 0,
            burned: 0,
            realigned: 0,
            rerouted: 0,
            relocated: 0,
            amended: 0,
            wake: 0,
            nominal: 0,
        }
    }

    /// The tally for one status.
    pub open spec fn count(&self, status: Status) -> nat {
        match status {
            Status::Activated => self.activated as nat,
            Status::Burned => self.burned as nat,
            Status::Realigned => self.realigned as nat,
            Status::Rerouted => self.rerouted as nat,
            Status::Relocated => self.relocated as nat,
            Status::Amended => self.amended as nat,
            Status::Wake => self.wake as nat,
            Status::Nominal => self.nominal as nat,
        }
    }

    /// Entries that changed in a way that counts: everything but a wake and
    /// the unchanged.
    pub open spec fn spec_changed(&self) -> int {
        self.activated + self.burned + self.realigned + self.rerouted + self.relocated
            + self.amended
    }

    /// Every recorded entry, each exactly once.
    pub open spec fn spec_total(&self) -> int {
        self.spec_changed() + self.wake + self.nominal
    }

    /// The tally with one more `status` recorded.
    pub open spec fn recorded_one(self, status: Status) -> Counts {
        match status {
            Status::Activated => Counts { activated: (self.activated + 1) as usize, ..self },
            Status::Burned => Counts { burned: (self.burned + 1) as usize, ..self },
            Status::Realigned => Counts { realigned: (self.realigned + 1) as usize, ..self },
            Status::Rerouted => Counts { rerouted: (self.rerouted + 1) as usize, ..self },
            Status::Relocated => Counts { relocated: (self.relocated + 1) as usize, ..self },
            Status::Amended => Counts { amended: (self.amended + 1) as usize, ..self },
            Status::Wake => Counts { wake: (self.wake + 1) as usize, ..self },
            Status::Nominal => Counts { nominal: (self.nominal + 1) as usize, ..self },
        }
    }

    pub fn record(&mut self, status: Status)
        requires
            old(self).count(status) < usize::MAX,
        ensures
            *final(self) == old(self).recorded_one(status),
            final(self).count(status) == old(self).count(status) + 1,
            forall|other: Status| other != status ==> final(self).count(other) == old(self).count(other),
            final(self).spec_total() == old(self).spec_total() + 1,
    {
        match status {
            Status::Activated => self.activated += 1,
            Status::Burned => self.burned += 1,
            Status::Realigned => self.realigned += 1,
            Status::Rerouted => self.rerouted += 1,
            Status::Relocated => self.relocated += 1,
            Status::Amended => self.amended += 1,
            Status::Wake => self.wake += 1,
            Status::Nominal => self.nominal += 1,
        }
    }

    pub fn of(&self, status: Status) -> (n: usize)
        ensures
            n == self.count(status),
    {
        match status {
            Status::Activated => self.activated,
            Status::Burned => self.burned,
            Status::Realigned => self.realigned,
            Status::Rerouted => self.rerouted,
            Status::Relocated => self.relocated,
            Status::Amended => self.amended,
            Status::Wake => self.wake,
            Status::Nominal => self.nominal,
        }
    }

    pub fn changed(&self) -> (n: usize)
        requires
            self.spec_changed() <= usize::MAX,
        ensures
            n == self.spec_changed(),
    {
        self.activated + self.burned + self.realigned + self.rerouted + self.relocated
            + self.amended
    }

    pub fn total(&self) -> (n: usize)
        requires
            self.spec_total() <= usize::MAX,
        ensures
            n == self.spec_total(),
    {
        self.changed() + self.wake + self.nominal
    }
}

/// Order on (name, key) pairs: by name, then by key.
pub open spec fn pair_lt(a: (Seq<char>, Seq<char>), b: (Seq<char>, Seq<char>)) -> bool {
    seq_lt(a.0, b.0) || (a.0 == b.0 && seq_lt(a.1, b.1))
}

pub proof fn lemma_pair_order(a: (Seq<char>, Seq<char>), b: (Seq<char>, Seq<char>), c: (Seq<char>, Seq<char>))
    ensures
        !pair_lt(a, a),
        pair_lt(a, b) ==> !pair_lt(b, a),
        pair_lt(a, b) && pair_lt(b, c) ==> pair_lt(a, c),
        a != b ==> pair_lt(a, b) || pair_lt(b, a),
{
    lemma_lt_order(a.0, b.0, c.0);
    lemma_lt_order(a.1, b.1, c.1);
    lemma_lt_order(b.0, a.0, c.0);
    lemma_lt_order(b.1, a.1, c.1);
}

/// The views of a list of (name, key) pairs.
pub open spec fn pair_views(v: Seq<(String, String)>) -> Seq<(Seq<char>, Seq<char>)> {
    v.map_values(|p: (String, String)| (p.0@, p.1@))
}

/// Pairs in strictly increasing order.
pub open spec fn pairs_sorted(s: Seq<(Seq<char>, Seq<char>)>) -> bool {
    forall|i: int, j: int| 0 <= i < j < s.len() ==> pair_lt(#[trigger] s[i], #[trigger] s[j])
}

/// Whether pair `a` orders before pair `b`.
pub fn pair_less(a: &(String, String), b: &(String, String)) -> (r: bool)
    ensures
        r == pair_lt((a.0@, a.1@), (b.0@, b.1@)),
{
    if str_lt(a.0.as_str(), b.0.as_str()) {
        true
    } else if crate::text::same(a.0.as_str(), b.0.as_str()) {
        str_lt(a.1.as_str(), b.1.as_str())
    } else {
        false
    }
}

/// Insert a pair where it belongs in a sorted list.
pub fn insert_pair(list: &mut Vec<(String, String)>, item: (String, String))
    requires
        pairs_sorted(pair_views(old(list)@)),
        !pair_views(old(list)@).contains((item.0@, item.1@)),
    ensures
        pairs_sorted(pair_views(final(list)@)),
        exists|pos: int|
            0 <= pos <= old(list)@.len() && pair_views(final(list)@) == pair_views(old(list)@).insert(
                pos,
                (item.0@, item.1@),
            ),
{
    let ghost v = pair_views(list@);
    let ghost it = (item.0@, item.1@);
    let mut pos: usize = 0;
    let mut going = true;
    while going && pos < list.len()
        invariant
            v == pair_views(list@),
            it == (item.0@, item.1@),
            pos <= list.len(),
            forall|q: int| 0 <= q < pos ==> pair_lt(#[trigger] v[q], it),
            !going ==> pos < list.len() && !pair_lt(v[pos as int], it),
        decreases list.len() - pos, if going { 1int } else { 0int },
    {
        assert(v[pos as int] == (list@[pos as int].0@, list@[pos as int].1@));
        if pair_less(&list[pos], &item) {
            pos = pos + 1;
        } else {
            going = false;
        }
    }
    proof {
        if pos < list.len() {
            assert(v[pos as int] == (list@[pos as int].0@, list@[pos as int].1@));
            assert(v[pos as int] != it) by {
                assert(v.contains(v[pos as int]));
            }
            lemma_pair_order(v[pos as int], it, it);
            assert(pair_lt(it, v[pos as int]));
        }
    }
    list.insert(pos, item);
    proof {
        let nv = v.insert(pos as int, it);
        assert(pair_views(list@) =~= nv);
        assert forall|i: int, j: int| 0 <= i < j < nv.len() implies pair_lt(#[trigger] nv[i], #[trigger] nv[j]) by {
            if j < pos {
                assert(pair_lt(v[i], v[j]));
            } else if j == pos {
                assert(pair_lt(v[i], it));
            } else if i < pos {
                lemma_pair_order(v[i], it, v[j - 1]);
                assert(pair_lt(v[i], it));
                if j - 1 > pos {
                    assert(pair_lt(v[pos as int], v[j - 1]));
                    lemma_pair_order(it, v[pos as int], v[j - 1]);
                }
            } else if i == pos {
                if j - 1 > pos {
                    assert(pair_lt(v[pos as int], v[j - 1]));
                    lemma_pair_order(it, v[pos as int], v[j - 1]);
                }
            } else {
                assert(pair_lt(v[i - 1], v[j - 1]));
            }
        }
    }
}

/// How many of `ss` are `s`.
pub open spec fn tally(ss: Seq<Status>, s: Status) -> nat
    decreases ss.len(),
{
    if ss.len() == 0 {
        0
    } else {
        tally(ss.drop_last(), s) + if ss.last() == s {
            1nat
        } else {
            0nat
        }
    }
}

/// The tallies of every status, summed.
pub open spec fn tally_all(ss: Seq<Status>) -> int {
    (tally(ss, Status::Activated) as int) + tally(ss, Status::Burned) + tally(ss, Status::Realigned) + tally(
        ss,
        Status::Rerouted,
    ) + tally(ss, Status::Relocated) + tally(ss, Status::Amended) + tally(ss, Status::Wake) + tally(
        ss,
        Status::Nominal,
    )
}

/// Every status falls under exactly one tally.
pub proof fn lemma_tally(ss: Seq<Status>)
    ensures
        tally_all(ss) == ss.len(),
        forall|s: Status| #[trigger] tally(ss, s) <= ss.len(),
    decreases ss.len(),
{
    if ss.len() > 0 {
        lemma_tally(ss.drop_last());
    }
}

/// `c` holds the tallies of `ss`.
pub open spec fn counts_of(c: Counts, ss: Seq<Status>) -> bool {
    forall|s: Status| #[trigger] c.count(s) == tally(ss, s)
}

/// The tallies of a list of statuses add up to the length of the list: each
/// entry is counted once, a wake and the unchanged included.
pub proof fn law_counts_add_up(c: Counts, ss: Seq<Status>)
    requires
        counts_of(c, ss),
    ensures
        c.spec_total() == ss.len(),
{
    lemma_tally(ss);
    assert(c.count(Status::Activated) == tally(ss, Status::Activated));
    assert(c.count(Status::Burned) == tally(ss, Status::Burned));
    assert(c.count(Status::Realigned) == tally(ss, Status::Realigned));
    assert(c.count(Status::Rerouted) == tally(ss, Status::Rerouted));
    assert(c.count(Status::Relocated) == tally(ss, Status::Relocated));
    assert(c.count(Status::Amended) == tally(ss, Status::Amended));
    assert(c.count(Status::Wake) == tally(ss, Status::Wake));
    assert(c.count(Status::Nominal) == tally(ss, Status::Nominal));
}

/// A fresh tally with each of `ss` recorded into it, one after another.
pub open spec fn recorded(ss: Seq<Status>) -> Counts
    decreases ss.len(),
{
    if ss.len() == 0 {
        Counts::zero_spec()
    } else {
        recorded(ss.drop_last()).recorded_one(ss.last())
    }
}

/// Recording statuses one after another into a fresh tally counts each under
/// its own status, and every one of them exactly once in the total.
pub proof fn law_recording_counts_each_once(ss: Seq<Status>)
    requires
        ss.len() < usize::MAX,
    ensures
        counts_of(recorded(ss), ss),
        recorded(ss).spec_total() == ss.len(),
    decreases ss.len(),
{
    if ss.len() > 0 {
        let rest = ss.drop_last();
        law_recording_counts_each_once(rest);
        lemma_tally(rest);
        let c = recorded(rest);
        let s = ss.last();
        assert(c.count(s) == tally(rest, s));
        assert(recorded(ss) == c.recorded_one(s));
        assert forall|t: Status| #[trigger] recorded(ss).count(t) == tally(ss, t) by {
            lemma_recorded_one(c, s, t);
            assert(c.count(t) == tally(rest, t));
            assert(tally(ss, t) == tally(rest, t) + if s == t { 1nat } else { 0nat });
        }
    }
    law_counts_add_up(recorded(ss), ss);
}

proof fn lemma_recorded_one(c: Counts, s: Status, t: Status)
    requires
        c.count(s) < usize::MAX,
    ensures
        c.recorded_one(s).count(t) == c.count(t) + if s == t { 1nat } else { 0nat },
{
}

/// Record one more status into a tally of `ss`.
pub(crate) fn record_into(c: &mut Counts, ss: Ghost<Seq<Status>>, s: Status)
    requires
        counts_of(*old(c), ss@),
        ss@.len() < usize::MAX,
    ensures
        counts_of(*final(c), ss@.push(s)),
{
    proof {
        lemma_tally(ss@);
        assert(old(c).count(s) == tally(ss@, s));
        assert(ss@.push(s).drop_last() =~= ss@);
    }
    c.record(s);
    proof {
        assert forall|t: Status| #[trigger] c.count(t) == tally(ss@.push(s), t) by {
            assert(ss@.push(s).drop_last() =~= ss@);
            assert(old(c).count(t) == tally(ss@, t));
        }
    }
}

/// What the feed orders an entry by: its status, then its name, then its key.
pub open spec fn item_lt(a: (Status, (Seq<char>, Seq<char>)), b: (Status, (Seq<char>, Seq<char>))) -> bool {
    spec_rank(a.0) < spec_rank(b.0) || (spec_rank(a.0) == spec_rank(b.0) && pair_lt(a.1, b.1))
}

/// The views of a list of feed items.
pub open spec fn item_views(v: Seq<(Status, (String, String))>) -> Seq<(Status, (Seq<char>, Seq<char>))> {
    v.map_values(|x: (Status, (String, String))| (x.0, (x.1.0@, x.1.1@)))
}

/// Positions `idx` into `items`, in strictly increasing feed order.
pub open spec fn feed_sorted(items: Seq<(Status, (Seq<char>, Seq<char>))>, idx: Seq<int>) -> bool {
    &&& forall|t: int| 0 <= t < idx.len() ==> 0 <= #[trigger] idx[t] < items.len()
    &&& forall|t: int, u: int| 0 <= t < u < idx.len() ==> item_lt(items[#[trigger] idx[t]], items[#[trigger] idx[u]])
}

/// `idx` is the feed of `items`: the position of every changed item, each
/// once, most disruptive status first, then by name, then by key.
pub open spec fn is_feed(items: Seq<(Status, (Seq<char>, Seq<char>))>, idx: Seq<int>) -> bool {
    &&& feed_sorted(items, idx)
    &&& forall|i: int| #[trigger] idx.contains(i) <==> (0 <= i < items.len() && items[i].0 != Status::Nominal)
}

/// The feed of `items`.
pub open spec fn feed_by_name(items: Seq<(Status, (Seq<char>, Seq<char>))>) -> Seq<int> {
    choose|idx: Seq<int>| is_feed(items, idx)
}

/// No two items share a key: their keys run strictly upwards.
pub open spec fn keys_rise(items: Seq<(Status, (Seq<char>, Seq<char>))>) -> bool {
    forall|i: int, j: int| 0 <= i < j < items.len() ==> seq_lt(#[trigger] items[i].1.1, #[trigger] items[j].1.1)
}

proof fn lemma_item_order(a: (Status, (Seq<char>, Seq<char>)), b: (Status, (Seq<char>, Seq<char>)), c: (Status, (Seq<char>, Seq<char>)))
    ensures
        !item_lt(a, a),
        item_lt(a, b) ==> !item_lt(b, a),
        item_lt(a, b) && item_lt(b, c) ==> item_lt(a, c),
        a.1.1 != b.1.1 ==> item_lt(a, b) || item_lt(b, a),
{
    lemma_pair_order(a.1, b.1, c.1);
    lemma_pair_order(b.1, a.1, c.1);
}

/// Two lists of positions, each in strictly increasing feed order and holding
/// the same positions, are the same list.
proof fn lemma_feed_unique(items: Seq<(Status, (Seq<char>, Seq<char>))>, a: Seq<int>, b: Seq<int>)
    requires
        feed_sorted(items, a),
        feed_sorted(items, b),
        forall|x: int| #[trigger] a.contains(x) <==> b.contains(x),
    ensures
        a == b,
    decreases a.len(),
{
    if a.len() == 0 {
        if b.len() > 0 {
            assert(b.contains(b[0]));
            assert(a.contains(b[0]) <==> b.contains(b[0]));
        }
        assert(a =~= b);
    } else {
        assert(a.contains(a[0]));
        assert(b.len() > 0);
        assert(b.contains(b[0]));
        assert(a.contains(b[0]) <==> b.contains(b[0]));
        if a[0] != b[0] {
            let j = choose|j: int| 0 <= j < b.len() && b[j] == a[0];
            let i = choose|i: int| 0 <= i < a.len() && a[i] == b[0];
            assert(item_lt(items[b[0]], items[b[j]]));
            assert(item_lt(items[a[0]], items[a[i]]));
            lemma_item_order(items[a[0]], items[b[0]], items[a[0]]);
        }
        let a1 = a.drop_first();
        let b1 = b.drop_first();
        assert forall|x: int| #[trigger] a1.contains(x) <==> b1.contains(x) by {
            if a1.contains(x) {
                let i = choose|i: int| 0 <= i < a1.len() && a1[i] == x;
                assert(a[i + 1] == x);
                assert(item_lt(items[a[0]], items[a[i + 1]]));
                lemma_item_order(items[x], items[x], items[x]);
                assert(a.contains(x));
                assert(b.contains(x));
                let j = choose|j: int| 0 <= j < b.len() && b[j] == x;
                assert(j != 0);
                assert(b1[j - 1] == x);
            }
            if b1.contains(x) {
                let j = choose|j: int| 0 <= j < b1.len() && b1[j] == x;
                assert(b[j + 1] == x);
                assert(item_lt(items[b[0]], items[b[j + 1]]));
                lemma_item_order(items[x], items[x], items[x]);
                assert(b.contains(x));
                assert(a.contains(x) <==> b.contains(x));
                let i = choose|i: int| 0 <= i < a.len() && a[i] == x;
                assert(i != 0);
                assert(a1[i - 1] == x);
            }
        }
        assert forall|t: int, u: int| 0 <= t < u < a1.len() implies item_lt(items[#[trigger] a1[t]], items[#[trigger] a1[u]]) by {
            assert(a1[t] == a[t + 1] && a1[u] == a[u + 1]);
        }
        assert forall|t: int, u: int| 0 <= t < u < b1.len() implies item_lt(items[#[trigger] b1[t]], items[#[trigger] b1[u]]) by {
            assert(b1[t] == b[t + 1] && b1[u] == b[u + 1]);
        }
        assert forall|t: int| 0 <= t < a1.len() implies 0 <= #[trigger] a1[t] < items.len() by {
            assert(a1[t] == a[t + 1]);
        }
        assert forall|t: int| 0 <= t < b1.len() implies 0 <= #[trigger] b1[t] < items.len() by {
            assert(b1[t] == b[t + 1]);
        }
        lemma_feed_unique(items, a1, b1);
        assert(a =~= seq![a[0]] + a1);
        assert(b =~= seq![b[0]] + b1);
    }
}

/// A feed found is the feed.
pub proof fn lemma_is_feed(items: Seq<(Status, (Seq<char>, Seq<char>))>, idx: Seq<int>)
    requires
        is_feed(items, idx),
    ensures
        feed_by_name(items) == idx,
{
    let f = feed_by_name(items);
    assert(is_feed(items, f));
    lemma_feed_unique(items, f, idx);
}

/// Whether item `a` orders before item `b` in the feed.
fn item_less(a: &(Status, (String, String)), b: &(Status, (String, String))) -> (r: bool)
    ensures
        r == item_lt((a.0, (a.1.0@, a.1.1@)), (b.0, (b.1.0@, b.1.1@))),
{
    let ra = a.0.rank();
    let rb = b.0.rank();
    ra < rb || (ra == rb && pair_less(&a.1, &b.1))
}

/// Positions, as integers.
pub open spec fn positions(v: Seq<usize>) -> Seq<int> {
    v.map_values(|k: usize| k as int)
}

/// The positions of the feed of `items`: every changed item once, most
/// disruptive status first, then by name, then by key.
pub fn feed_positions(items: &Vec<(Status, (String, String))>) -> (idx: Vec<usize>)
    requires
        keys_rise(item_views(items@)),
    ensures
        is_feed(item_views(items@), positions(idx@)),
{
    let ghost iv = item_views(items@);
    let mut idx: Vec<usize> = Vec::new();
    let mut i: usize = 0;
    while i < items.len()
        invariant
            iv == item_views(items@),
            keys_rise(iv),
            i <= items.len(),
            feed_sorted(iv, positions(idx@)),
            forall|x: int| #[trigger] positions(idx@).contains(x) <==> (0 <= x < i && iv[x].0
                != Status::Nominal),
        decreases items.len() - i,
    {
        let ghost before = positions(idx@);
        if !matches!(items[i].0, Status::Nominal) {
            let mut p: usize = 0;
            proof {
                assert forall|t: int| 0 <= t < idx.len() implies (#[trigger] idx@[t]) < items.len() by {
                    assert(before[t] == idx@[t] as int);
                }
            }
            while p < idx.len() && !item_less(&items[i], &items[idx[p]])
                invariant
                    iv == item_views(items@),
                    forall|t: int| 0 <= t < idx.len() ==> (#[trigger] idx@[t]) < items.len(),
                    i < items.len(),
                    before == positions(idx@),
                    p <= idx.len(),
                    feed_sorted(iv, before),
                    forall|t: int| 0 <= t < p ==> !item_lt(iv[i as int], #[trigger] iv[before[t]]),
                decreases idx.len() - p,
            {
                proof {
                    assert(before[p as int] == idx@[p as int] as int);
                    assert(iv[i as int] == (items@[i as int].0, (items@[i as int].1.0@, items@[i as int].1.1@)));
                    assert(iv[before[p as int]] == (items@[idx@[p as int] as int].0, (items@[idx@[p as int] as int].1.0@, items@[idx@[p as int] as int].1.1@)));
                }
                p = p + 1;
            }
            proof {
                if p < idx.len() {
                    assert(before[p as int] == idx@[p as int] as int);
                    assert(iv[before[p as int]] == (items@[idx@[p as int] as int].0, (items@[idx@[p as int] as int].1.0@, items@[idx@[p as int] as int].1.1@)));
                    assert(item_lt(iv[i as int], iv[before[p as int]]));
                }
            }
            idx.insert(p, i);
            proof {
                let after = positions(idx@);
                assert(after =~= before.insert(p as int, i as int));
                // Everything before `p` orders before item `i`; everything from `p` on after it.
                assert forall|t: int| 0 <= t < p implies item_lt(#[trigger] iv[before[t]], iv[i as int]) by {
                    assert(before.contains(before[t]));
                    assert(before[t] < i);
                    assert(seq_lt(iv[before[t]].1.1, iv[i as int].1.1));
                    lemma_lt_irreflexive(iv[i as int].1.1);
                    lemma_item_order(iv[before[t]], iv[i as int], iv[i as int]);
                }
                assert forall|t: int| p <= t < before.len() implies item_lt(iv[i as int], #[trigger] iv[before[t]]) by {
                    if t > p {
                        assert(item_lt(iv[before[p as int]], iv[before[t]]));
                        lemma_item_order(iv[i as int], iv[before[p as int]], iv[before[t]]);
                    }
                }
                assert forall|t: int, u: int| 0 <= t < u < after.len() implies item_lt(iv[#[trigger] after[t]], iv[#[trigger] after[u]]) by {
                    if u < p {
                        assert(after[t] == before[t] && after[u] == before[u]);
                    } else if u == p {
                        assert(after[t] == before[t]);
                    } else if t < p {
                        assert(after[t] == before[t] && after[u] == before[u - 1]);
                        lemma_item_order(iv[before[t]], iv[i as int], iv[before[u - 1]]);
                    } else if t == p {
                        assert(after[u] == before[u - 1]);
                    } else {
                        assert(after[t] == before[t - 1] && after[u] == before[u - 1]);
                    }
                }
                assert forall|t: int| 0 <= t < after.len() implies 0 <= #[trigger] after[t] < iv.len() by {
                    if t < p {
                        assert(after[t] == before[t]);
                    } else if t > p {
                        assert(after[t] == before[t - 1]);
                    }
                }
                assert forall|x: int| #[trigger] after.contains(x) <==> (0 <= x < i + 1 && iv[x].0 != Status::Nominal) by {
                    if after.contains(x) {
                        let t = choose|t: int| 0 <= t < after.len() && after[t] == x;
                        if t < p {
                            assert(before[t] == x);
                            assert(before.contains(x));
                        } else if t > p {
                            assert(before[t - 1] == x);
                            assert(before.contains(x));
                        }
                    }
                    if 0 <= x < i + 1 && iv[x].0 != Status::Nominal {
                        if x == i {
                            assert(after[p as int] == x);
                        } else {
                            assert(before.contains(x));
                            let t = choose|t: int| 0 <= t < before.len() && before[t] == x;
                            if t < p {
                                assert(after[t] == x);
                            } else {
                                assert(after[t + 1] == x);
                            }
                        }
                    }
                }
            }
        } else {
            proof {
                assert forall|x: int| #[trigger] before.contains(x) <==> (0 <= x < i + 1 && iv[x].0 != Status::Nominal) by {
                    if x == i {
                        assert(iv[i as int].0 == items@[i as int].0);
                    }
                }
            }
        }
        i = i + 1;
    }
    idx
}

/// The name a node stands for.
pub open spec fn node_id(n: TreeNode) -> Seq<char> {
    match n.key {
        NodeKey::Subject(k) => k@,
        NodeKey::Operation(k) => k@,
        NodeKey::External(k) => k@,
    }
}

/// One rendered line of a forest.
pub struct Row<'a> {
    pub prefix: String,
    pub node: &'a TreeNode,
}

/// What a row shows: its prefix and the node it draws.
pub open spec fn row_view(r: Row) -> (Seq<char>, TreeNode) {
    (r.prefix@, *r.node)
}

/// Whether a node is drawn under the given filter.
pub open spec fn shown(n: TreeNode, changes_only: bool) -> bool {
    !changes_only || n.touched
}

/// Whether some node after position `i` of `kids` is drawn.
pub open spec fn shown_after(kids: Seq<TreeNode>, i: int, changes_only: bool) -> bool {
    exists|j: int| i < j < kids.len() && shown(#[trigger] kids[j], changes_only)
}

pub open spec fn connector(prefix: Seq<char>, is_last: bool) -> Seq<char> {
    if prefix.len() == 0 {
        Seq::empty()
    } else if is_last {
        "└─ "@
    } else {
        "├─ "@
    }
}

pub open spec fn child_prefix(prefix: Seq<char>, is_last: bool) -> Seq<char> {
    if prefix.len() == 0 {
        "  "@
    } else if is_last {
        prefix + "   "@
    } else {
        prefix + "│  "@
    }
}

/// The rows drawn for `node` and everything shown below it.
pub open spec fn rows_of(node: TreeNode, prefix: Seq<char>, is_last: bool, changes_only: bool) -> Seq<
    (Seq<char>, TreeNode),
>
    decreases node, 1int, 0int,
{
    seq![(prefix + connector(prefix, is_last), node)] + rows_of_kids(
        node,
        0,
        child_prefix(prefix, is_last),
        changes_only,
    )
}

/// The rows drawn for the children of `node` from position `i` on.
pub open spec fn rows_of_kids(node: TreeNode, i: int, prefix: Seq<char>, changes_only: bool) -> Seq<
    (Seq<char>, TreeNode),
>
    decreases node, 0int, node.children@.len() - i,
{
    if i < 0 || i >= node.children@.len() {
        Seq::empty()
    } else {
        let kid = node.children@[i];
        let here = if shown(kid, changes_only) {
            rows_of(kid, prefix, !shown_after(node.children@, i, changes_only), changes_only)
        } else {
            Seq::empty()
        };
        here + rows_of_kids(node, i + 1, prefix, changes_only)
    }
}

/// The rows drawn for the roots from position `i` on. Roots are drawn with
/// the empty prefix, so they carry no connector.
pub open spec fn rows_of_roots(roots: Seq<TreeNode>, i: int, changes_only: bool) -> Seq<
    (Seq<char>, TreeNode),
>
    decreases roots.len() - i,
{
    if i < 0 || i >= roots.len() {
        Seq::empty()
    } else {
        let here = if shown(roots[i], changes_only) {
            rows_of(roots[i], Seq::empty(), !shown_after(roots, i, changes_only), changes_only)
        } else {
            Seq::empty()
        };
        here + rows_of_roots(roots, i + 1, changes_only)
    }
}

/// Whether some node after position `i` of `kids` is drawn, computed.
fn any_shown_after(kids: &[TreeNode], i: usize, changes_only: bool) -> (r: bool)
    ensures
        r == shown_after(kids@, i as int, changes_only),
{
    if i >= kids.len() {
        return false;
    }
    let mut j = i + 1;
    while j < kids.len()
        invariant
            i < j <= kids.len(),
            forall|k: int| i < k < j ==> !shown(#[trigger] kids@[k], changes_only),
        decreases kids.len() - j,
    {
        if !changes_only || kids[j].touched {
            assert(shown(kids@[j as int], changes_only));
            return true;
        }
        j = j + 1;
    }
    false
}

/// Flatten a forest into drawable rows, optionally keeping only the branches
/// that lead to a change.
pub fn flatten(roots: &[TreeNode], changes_only: bool) -> (rows: Vec<Row<'_>>)
    ensures
        rows@.map_values(|r: Row| row_view(r)) == rows_of_roots(roots@, 0, changes_only),
{
    let mut rows: Vec<Row<'_>> = Vec::new();
    let mut i: usize = 0;
    while i < roots.len()
        invariant
            i <= roots.len(),
            rows@.map_values(|r: Row| row_view(r)) + rows_of_roots(roots@, i as int, changes_only)
                == rows_of_roots(roots@, 0, changes_only),
        decreases roots.len() - i,
    {
        let ghost before = rows@.map_values(|r: Row| row_view(r));
        if !changes_only || roots[i].touched {
            let is_last = !any_shown_after(roots, i, changes_only);
            let empty = String::new();
            emit(&roots[i], &empty, is_last, changes_only, &mut rows);
        }
        proof {
            assert(rows@.map_values(|r: Row| row_view(r)) + rows_of_roots(roots@, i + 1, changes_only)
                =~= before + rows_of_roots(roots@, i as int, changes_only));
        }
        i = i + 1;
    }
    assert(rows@.map_values(|r: Row| row_view(r)) + rows_of_roots(roots@, i as int, changes_only)
        =~= rows@.map_values(|r: Row| row_view(r)));
    rows
}

fn emit<'a>(
    node: &'a TreeNode,
    prefix: &String,
    is_last: bool,
    changes_only: bool,
    rows: &mut Vec<Row<'a>>,
)
    ensures
        final(rows)@.map_values(|r: Row| row_view(r)) == old(rows)@.map_values(|r: Row| row_view(r))
            + rows_of(*node, prefix@, is_last, changes_only),
    decreases *node, 1int, 0int,
{
    let ghost start = old(rows)@.map_values(|r: Row| row_view(r));
    let conn = if prefix.as_str().is_empty() {
        String::new()
    } else if is_last {
        owned("└─ ")
    } else {
        owned("├─ ")
    };
    proof {
        reveal_strlit("└─ ");
        reveal_strlit("├─ ");
    }
    let shown_prefix = joined(prefix.as_str(), conn.as_str());
    assert(shown_prefix@ == prefix@ + connector(prefix@, is_last));
    rows.push(Row { prefix: shown_prefix, node });
    assert(rows@.map_values(|r: Row| row_view(r)) =~= start + seq![(prefix@ + connector(prefix@, is_last), *node)]);

    let child = if prefix.as_str().is_empty() {
        owned("  ")
    } else if is_last {
        joined(prefix.as_str(), "   ")
    } else {
        joined(prefix.as_str(), "│  ")
    };
    assert(child@ == child_prefix(prefix@, is_last));
    emit_kids(node, &child, changes_only, rows);
}

fn emit_kids<'a>(node: &'a TreeNode, prefix: &String, changes_only: bool, rows: &mut Vec<Row<'a>>)
    ensures
        final(rows)@.map_values(|r: Row| row_view(r)) == old(rows)@.map_values(|r: Row| row_view(r))
            + rows_of_kids(*node, 0, prefix@, changes_only),
    decreases *node, 0int, node.children@.len() + 1,
{
    let ghost start = old(rows)@.map_values(|r: Row| row_view(r));
    let kids = &node.children;
    let mut i: usize = 0;
    while i < kids.len()
        invariant
            kids == &node.children,
            i <= kids.len(),
            start + rows_of_kids(*node, 0, prefix@, changes_only) == rows@.map_values(
                |r: Row| row_view(r),
            ) + rows_of_kids(*node, i as int, prefix@, changes_only),
        decreases kids.len() - i,
    {
        let ghost before = rows@.map_values(|r: Row| row_view(r));
        if !changes_only || kids[i].touched {
            let is_last = !any_shown_after(kids.as_slice(), i, changes_only);
            proof {
                assert(decreases_to!(*node => node.children));
                assert(decreases_to!(node.children => node.children[i as int]));
            }
            emit(&kids[i], prefix, is_last, changes_only, rows);
        }
        proof {
            assert(rows@.map_values(|r: Row| row_view(r)) + rows_of_kids(*node, i + 1, prefix@, changes_only)
                =~= before + rows_of_kids(*node, i as int, prefix@, changes_only));
        }
        i = i + 1;
    }
    assert(rows@.map_values(|r: Row| row_view(r)) + rows_of_kids(*node, i as int, prefix@, changes_only)
        =~= rows@.map_values(|r: Row| row_view(r)));
}

/// The views of a list of names.
pub open spec fn names(v: Seq<String>) -> Seq<Seq<char>> {
    v.map_values(|s: String| s@)
}

/// Whether two lists of names are equal, element by element.
pub fn same_names(a: &Vec<String>, b: &Vec<String>) -> (r: bool)
    ensures
        r == (names(a@) == names(b@)),
{
    if a.len() != b.len() {
        proof {
            assert(names(a@).len() != names(b@).len());
        }
        return false;
    }
    let mut i: usize = 0;
    while i < a.len()
        invariant
            a.len() == b.len(),
            i <= a.len(),
            forall|k: int| 0 <= k < i ==> names(a@)[k] == names(b@)[k],
        decreases a.len() - i,
    {
        if !crate::text::same(a[i].as_str(), b[i].as_str()) {
            proof {
                assert(names(a@)[i as int] != names(b@)[i as int]);
            }
            return false;
        }
        i = i + 1;
    }
    assert(names(a@) =~= names(b@));
    true
}

/// The names of `a` that `b` lacks, sorted and without repeats.
pub open spec fn is_sorted_difference(r: Seq<Seq<char>>, a: Seq<Seq<char>>, b: Seq<Seq<char>>) -> bool {
    &&& strictly_sorted(r)
    &&& forall|x: Seq<char>| #[trigger] r.contains(x) <==> (a.contains(x) && !b.contains(x))
}

/// A delta accounts for the whole change: what `after` holds is what `before`
/// held less what was lost, plus what was gained; the two lists never share a
/// name, and a list compared with itself yields no delta.
pub proof fn law_delta_accounts_for_the_change(
    before: Seq<Seq<char>>,
    after: Seq<Seq<char>>,
    gained: Seq<Seq<char>>,
    lost: Seq<Seq<char>>,
)
    requires
        is_sorted_difference(gained, after, before),
        is_sorted_difference(lost, before, after),
    ensures
        forall|x: Seq<char>| #[trigger] after.contains(x) <==> ((before.contains(x) && !lost.contains(x)) || gained.contains(x)),
        forall|x: Seq<char>| #[trigger] gained.contains(x) ==> !lost.contains(x),
        before == after ==> gained.len() == 0 && lost.len() == 0,
{
    if before == after {
        if gained.len() > 0 {
            assert(gained.contains(gained[0]));
        }
        if lost.len() > 0 {
            assert(lost.contains(lost[0]));
        }
    }
}

/// Collect names into an ordered set.
pub(crate) fn name_set(v: &[String]) -> (m: StrMap<()>)
    ensures
        forall|x: Seq<char>| #[trigger] m.key_list().contains(x) <==> names(v@).contains(x),
{
    let mut m: StrMap<()> = StrMap::new();
    let mut i: usize = 0;
    while i < v.len()
        invariant
            i <= v.len(),
            forall|x: Seq<char>| #[trigger] m.key_list().contains(x) <==> names(v@).take(i as int).contains(x),
        decreases v.len() - i,
    {
        let ghost before = m.key_list();
        let k = v[i].clone();
        let ghost kv = k@;
        m.insert(k, ());
        proof {
            assert(names(v@).take(i + 1) =~= names(v@).take(i as int).push(kv));
            lemma_push_contains(names(v@).take(i as int), kv);
        }
        i = i + 1;
    }
    assert(names(v@).take(i as int) =~= names(v@));
    m
}

/// Names in `a` but not in `b`, in order.
fn difference(a: &StrMap<()>, b: &StrMap<()>) -> (r: Vec<String>)
    ensures
        is_sorted_difference(names(r@), a.key_list(), b.key_list()),
{
    let mut r: Vec<String> = Vec::new();
    let mut i: usize = 0;
    let n = a.len();
    while i < n
        invariant
            n == a.key_list().len(),
            a.inv(),
            i <= n,
            forall|p: int, q: int| 0 <= p < q < names(r@).len() ==> seq_lt(#[trigger] names(r@)[p], #[trigger] names(r@)[q]),
            forall|p: int| 0 <= p < names(r@).len() ==> exists|q: int| 0 <= q < i && a.key_list()[q] == #[trigger] names(r@)[p],
            forall|x: Seq<char>| #[trigger] names(r@).contains(x) <==> (a.key_list().take(i as int).contains(x) && !b.key_list().contains(x)),
        decreases n - i,
    {
        let k = a.key_at(i);
        let ghost before = r@;
        if !b.contains_key(k.as_str()) {
            let c = k.clone();
            r.push(c);
            proof {
                assert(names(r@) =~= names(before).push(c@));
                assert forall|p: int, q: int| 0 <= p < q < names(r@).len() implies seq_lt(#[trigger] names(r@)[p], #[trigger] names(r@)[q]) by {
                    if q == names(before).len() {
                        let w = choose|w: int| 0 <= w < i && a.key_list()[w] == names(before)[p];
                        assert(seq_lt(a.key_list()[w], a.key_list()[i as int]));
                    }
                }
            }
        }
        proof {
            assert(a.key_list().take(i + 1) =~= a.key_list().take(i as int).push(a.key_list()[i as int]));
            lemma_push_contains(a.key_list().take(i as int), a.key_list()[i as int]);
            lemma_push_contains(names(before), k@);
            assert forall|p: int| 0 <= p < names(r@).len() implies exists|q: int| 0 <= q < i + 1 && a.key_list()[q] == #[trigger] names(r@)[p] by {
                if p < names(before).len() {
                    assert(names(r@)[p] == names(before)[p]);
                } else {
                    assert(a.key_list()[i as int] == names(r@)[p]);
                }
            }
        }
        i = i + 1;
    }
    assert(a.key_list().take(i as int) =~= a.key_list());
    r
}

/// What `after` gained and lost relative to `before`.
pub fn delta(before: &[String], after: &[String]) -> (r: (Vec<String>, Vec<String>))
    ensures
        is_sorted_difference(names(r.0@), names(after@), names(before@)),
        is_sorted_difference(names(r.1@), names(before@), names(after@)),
{
    let b = name_set(before);
    let a = name_set(after);
    let gained = difference(&a, &b);
    let lost = difference(&b, &a);
    (gained, lost)
}

/// The last dotted segment of a qualified name.
pub fn leaf(qualname: &str) -> (r: &str)
    ensures
        r@ == spec_leaf(qualname@),
{
    let cs = chars_of(qualname);
    let start = find_after_last(&cs, '.');
    proof {
        lemma_after_last_bounds(cs@, '.', cs.len() as int);
        lemma_leaf_is_suffix(cs@);
    }
    let n = qualname.unicode_len();
    qualname.substring_char(start, n)
}

} // verus!
