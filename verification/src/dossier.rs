//! The dossier: what we know about one snapshot of the target package. A
//! snapshot is either the baseline (git HEAD) or the current working tree.
//!
//! Two kinds of observation live here: `Subject`s (classes, and the inheritance
//! between them) and `Operation`s (functions and methods, and the calls between
//! them). Calls are recorded as written and resolved later by [`Dossier::wire`],
//! once the whole snapshot has been read.

use vstd::prelude::*;

use crate::sitrep::names;
use crate::strmap::{lemma_insert_lookup, lemma_remove_lookup, StrMap};
use crate::text::{
    decimal, dot, dotted, ends_with, first_at, join, joined, joined3, lemma_sorted_len_bound, lemma_sorted_unique, owned,
    has_char, lemma_lt_order, seq_lt, spec_decimal, spec_join, spec_leaf, spec_starts_with,
    strictly_sorted, strip_prefix,
};

verus! {

/// Copy every string of a list.
pub fn copy_names(v: &Vec<String>) -> (r: Vec<String>)
    ensures
        names(r@) == names(v@),
{
    let mut r: Vec<String> = Vec::new();
    let mut i: usize = 0;
    while i < v.len()
        invariant
            i <= v.len(),
            names(r@) == names(v@).take(i as int),
        decreases v.len() - i,
    {
        let c = v[i].clone();
        let ghost before = r@;
        r.push(c);
        assert(names(r@) =~= names(before).push(c@));
        assert(names(v@).take(i + 1) =~= names(v@).take(i as int).push(c@));
        i = i + 1;
    }
    assert(names(v@).take(i as int) =~= names(v@));
    r
}

/// Copy an optional string.
pub fn copy_opt(v: &Option<String>) -> (r: Option<String>)
    ensures
        opt_view(r) == opt_view(*v),
{
    match v {
        Some(s) => Some(s.clone()),
        None => None,
    }
}

/// The view of an optional string.
pub open spec fn opt_view(v: Option<String>) -> Option<Seq<char>> {
    match v {
        Some(s) => Some(s@),
        None => None,
    }
}

/// A single class definition observed in a snapshot.
#[derive(Debug, PartialEq, Eq)]
pub struct Subject {
    /// Fully qualified name, e.g. `pkg.mod.Outer.Inner`.
    pub qualname: String,
    /// The bare class name, e.g. `Inner`.
    pub name: String,
    /// Dotted module path, e.g. `pkg.mod`.
    pub module: String,
    /// Path of the defining file, relative to the repository root.
    pub file: String,
    /// 1-indexed line of the `class` keyword.
    pub line: usize,
    /// Base-class expressions as written, normalized (subscripts and keyword
    /// arguments stripped), in declaration order.
    pub bases: Vec<String>,
    /// Names of methods defined directly on the class body, sorted.
    pub methods: Vec<String>,
}

/// What a `Subject` says, as mathematical values.
pub struct SubjectView {
    pub qualname: Seq<char>,
    pub name: Seq<char>,
    pub module: Seq<char>,
    pub file: Seq<char>,
    pub line: usize,
    pub bases: Seq<Seq<char>>,
    pub methods: Seq<Seq<char>>,
}

impl View for Subject {
    type V = SubjectView;

    open spec fn view(&self) -> SubjectView {
        SubjectView {
            qualname: self.qualname@,
            name: self.name@,
            module: self.module@,
            file: self.file@,
            line: self.line,
            bases: names(self.bases@),
            methods: names(self.methods@),
        }
    }
}

impl Clone for Subject {
    fn clone(&self) -> (r: Self)
        ensures
            r@ == self@,
    {
        Subject {
            qualname: self.qualname.clone(),
            name: self.name.clone(),
            module: self.module.clone(),
            file: self.file.clone(),
            line: self.line,
            bases: copy_names(&self.bases),
            methods: copy_names(&self.methods),
        }
    }
}

/// `module:line`.
pub open spec fn spec_location(module: Seq<char>, line: usize) -> Seq<char> {
    module + seq![':'] + spec_decimal(line as nat)
}

/// The name with its module prefix stripped, or `fallback` when it does not
/// start with `module.`.
pub open spec fn spec_strip_module(qualname: Seq<char>, module: Seq<char>, fallback: Seq<char>) -> Seq<
    char,
> {
    let prefix = module + seq!['.'];
    if prefix.len() <= qualname.len() && qualname.subrange(0, prefix.len() as int) == prefix {
        qualname.subrange(prefix.len() as int, qualname.len() as int)
    } else {
        fallback
    }
}

fn strip_module(qualname: &str, module: &str, fallback: &str) -> (r: String)
    ensures
        r@ == spec_strip_module(qualname@, module@, fallback@),
{
    let prefix = joined(module, ".");
    proof {
        reveal_strlit(".");
        assert("."@ =~= seq!['.']);
    }
    match strip_prefix(qualname, prefix.as_str()) {
        Some(rest) => {
            assert(qualname@.subrange(0, prefix@.len() as int) =~= prefix@);
            assert(qualname@.subrange(prefix@.len() as int, qualname@.len() as int) =~= rest@);
            rest
        },
        None => owned(fallback),
    }
}

/// `module:line`.
fn location_of(module: &str, line: usize) -> (r: String)
    ensures
        r@ == spec_location(module@, line),
{
    let n = decimal(line);
    let r = joined3(module, ":", n.as_str());
    proof {
        reveal_strlit(":");
        assert(":"@ =~= seq![':']);
    }
    r
}

impl Subject {
    /// Name as written in its module, including any enclosing classes.
    pub fn display_name(&self) -> (r: String)
        ensures
            r@ == spec_strip_module(self.qualname@, self.module@, self.name@),
    {
        strip_module(self.qualname.as_str(), self.module.as_str(), self.name.as_str())
    }

    pub fn location(&self) -> (r: String)
        ensures
            r@ == spec_location(self.module@, self.line),
    {
        location_of(self.module.as_str(), self.line)
    }
}

/// How much we trust a resolved call. Python dispatches at runtime, so some
/// edges are read straight off the syntax and others are inference.
#[derive(Clone, Copy, Debug, PartialEq, Eq, PartialOrd, Ord, Structural)]
pub enum Confidence {
    /// Resolved structurally: a same-module name, or `self`/`super()` walked
    /// through the class hierarchy.
    Confirmed,
    /// Resolved by matching an unambiguous name across the package.
    Probable,
}

/// A name an `import` statement bound in some module, and the dotted path it
/// refers to. Following these turns "one operation happens to have this name"
/// into "this name is defined to mean that operation".
#[derive(Debug, PartialEq, Eq)]
pub struct Binding {
    pub local: String,
    pub target: String,
}

impl Clone for Binding {
    fn clone(&self) -> (r: Self)
        ensures
            r.local@ == self.local@,
            r.target@ == self.target@,
    {
        Binding { local: self.local.clone(), target: self.target.clone() }
    }
}

/// A resolved call from one operation to another.
#[derive(Debug, PartialEq, Eq)]
pub struct Link {
    pub target: String,
    pub confidence: Confidence,
}

impl Clone for Link {
    fn clone(&self) -> (r: Self)
        ensures
            r.target@ == self.target@,
            r.confidence == self.confidence,
    {
        Link { target: self.target.clone(), confidence: self.confidence }
    }
}

/// The views of a list of links: target and grade.
pub open spec fn link_views(v: Seq<Link>) -> Seq<(Seq<char>, Confidence)> {
    v.map_values(|l: Link| (l.target@, l.confidence))
}

/// Copy a list of links.
pub fn copy_links(v: &Vec<Link>) -> (r: Vec<Link>)
    ensures
        link_views(r@) == link_views(v@),
{
    let mut r: Vec<Link> = Vec::new();
    let mut i: usize = 0;
    while i < v.len()
        invariant
            i <= v.len(),
            link_views(r@) == link_views(v@).take(i as int),
        decreases v.len() - i,
    {
        let c = v[i].clone();
        let ghost before = r@;
        r.push(c);
        assert(link_views(r@) =~= link_views(before).push((c.target@, c.confidence)));
        assert(link_views(v@).take(i + 1) =~= link_views(v@).take(i as int).push(
            (c.target@, c.confidence),
        ));
        i = i + 1;
    }
    assert(link_views(v@).take(i as int) =~= link_views(v@));
    r
}

/// A function or method observed in a snapshot.
#[derive(Debug)]
pub struct Operation {
    /// Fully qualified name, e.g. `pkg.mod.Class.method`.
    pub callsign: String,
    /// The bare function name.
    pub name: String,
    /// Dotted module path.
    pub module: String,
    /// Qualified name of the enclosing class, when this is a method.
    pub owner: Option<String>,
    pub file: String,
    pub line: usize,
    /// Parameter names in order, with `*`/`**` kept.
    pub params: Vec<String>,
    /// Decorator expressions as written.
    pub decorators: Vec<String>,
    pub is_async: bool,
    /// Call targets exactly as written in the body, deduplicated.
    pub raw_calls: Vec<String>,
    /// Calls resolved to other operations in the package. Filled by `wire`.
    pub links: Vec<Link>,
    /// Calls that left the package (stdlib, third party, builtins).
    pub external: usize,
    /// Whether the operation calls itself.
    pub recursive: bool,
}

/// What an `Operation` says, as mathematical values.
pub struct OperationView {
    pub callsign: Seq<char>,
    pub name: Seq<char>,
    pub module: Seq<char>,
    pub owner: Option<Seq<char>>,
    pub file: Seq<char>,
    pub line: usize,
    pub params: Seq<Seq<char>>,
    pub decorators: Seq<Seq<char>>,
    pub is_async: bool,
    pub raw_calls: Seq<Seq<char>>,
    pub links: Seq<(Seq<char>, Confidence)>,
    pub external: usize,
    pub recursive: bool,
}

impl View for Operation {
    type V = OperationView;

    open spec fn view(&self) -> OperationView {
        OperationView {
            callsign: self.callsign@,
            name: self.name@,
            module: self.module@,
            owner: opt_view(self.owner),
            file: self.file@,
            line: self.line,
            params: names(self.params@),
            decorators: names(self.decorators@),
            is_async: self.is_async,
            raw_calls: names(self.raw_calls@),
            links: link_views(self.links@),
            external: self.external,
            recursive: self.recursive,
        }
    }
}

impl Clone for Operation {
    fn clone(&self) -> (r: Self)
        ensures
            r@ == self@,
    {
        Operation {
            callsign: self.callsign.clone(),
            name: self.name.clone(),
            module: self.module.clone(),
            owner: copy_opt(&self.owner),
            file: self.file.clone(),
            line: self.line,
            params: copy_names(&self.params),
            decorators: copy_names(&self.decorators),
            is_async: self.is_async,
            raw_calls: copy_names(&self.raw_calls),
            links: copy_links(&self.links),
            external: self.external,
            recursive: self.recursive,
        }
    }
}

/// The targets of a list of links, in order.
pub open spec fn link_targets(links: Seq<(Seq<char>, Confidence)>) -> Seq<Seq<char>> {
    links.map_values(|l: (Seq<char>, Confidence)| l.0)
}

impl Operation {
    /// Name as written in its module, e.g. `Channel.open` or `main`.
    pub fn display_name(&self) -> (r: String)
        ensures
            r@ == spec_strip_module(self.callsign@, self.module@, self.name@),
    {
        strip_module(self.callsign.as_str(), self.module.as_str(), self.name.as_str())
    }

    pub fn location(&self) -> (r: String)
        ensures
            r@ == spec_location(self.module@, self.line),
    {
        location_of(self.module.as_str(), self.line)
    }

    /// Clickable path into the working tree.
    pub fn source(&self) -> (r: String)
        ensures
            r@ == spec_location(self.file@, self.line),
    {
        location_of(self.file.as_str(), self.line)
    }

    pub fn signature(&self) -> (r: String)
        ensures
            r@ == seq!['('] + spec_join(names(self.params@), ", "@) + seq![')'],
    {
        let inner = join(&self.params, ", ");
        let r = joined3("(", inner.as_str(), ")");
        proof {
            reveal_strlit("(");
            reveal_strlit(")");
            assert("("@ =~= seq!['(']);
            assert(")"@ =~= seq![')']);
        }
        r
    }

    pub fn targets(&self) -> (r: Vec<String>)
        ensures
            names(r@) == link_targets(link_views(self.links@)),
    {
        let mut r: Vec<String> = Vec::new();
        let mut i: usize = 0;
        while i < self.links.len()
            invariant
                i <= self.links.len(),
                names(r@) == link_targets(link_views(self.links@)).take(i as int),
            decreases self.links.len() - i,
        {
            let c = self.links[i].target.clone();
            let ghost before = r@;
            r.push(c);
            assert(names(r@) =~= names(before).push(c@));
            assert(link_targets(link_views(self.links@)).take(i + 1) =~= link_targets(
                link_views(self.links@),
            ).take(i as int).push(c@));
            i = i + 1;
        }
        assert(link_targets(link_views(self.links@)).take(i as int) =~= link_targets(
            link_views(self.links@),
        ));
        r
    }
}


/// Whether `s` ends with `suffix`.
pub open spec fn spec_ends_with(s: Seq<char>, suffix: Seq<char>) -> bool {
    suffix.len() <= s.len() && s.subrange(s.len() - suffix.len(), s.len() as int) == suffix
}

/// `k` is a known name whose trailing segment is `tail`.
pub open spec fn tail_hit(keys: Seq<Seq<char>>, tail: Seq<char>, k: Seq<char>) -> bool {
    keys.contains(k) && spec_ends_with(k, tail)
}

/// Exactly one known name ends with `tail`.
pub open spec fn unique_tail_hit(keys: Seq<Seq<char>>, tail: Seq<char>) -> bool {
    &&& exists|k: Seq<char>| tail_hit(keys, tail, k)
    &&& forall|a: Seq<char>, b: Seq<char>| tail_hit(keys, tail, a) && tail_hit(keys, tail, b) ==> a == b
}

/// Best-effort resolution of a base-class expression among the known class
/// names: the same module first, then an absolute path, then the only class
/// whose trailing segment matches.
pub open spec fn spec_resolve(keys: Seq<Seq<char>>, base: Seq<char>, from_module: Seq<char>) -> Option<
    Seq<char>,
> {
    let local = dotted(from_module, base);
    if keys.contains(local) {
        Some(local)
    } else if keys.contains(base) {
        Some(base)
    } else {
        let tail = seq!['.'] + spec_leaf(base);
        if unique_tail_hit(keys, tail) {
            Some(choose|k: Seq<char>| tail_hit(keys, tail, k))
        } else {
            None
        }
    }
}

/// Resolution never invents a class: whatever a base expression resolves to
/// is a class of the snapshot.
pub proof fn law_resolve_names_a_known_class(keys: Seq<Seq<char>>, base: Seq<char>, from_module: Seq<char>)
    ensures
        spec_resolve(keys, base, from_module) matches Some(k) ==> keys.contains(k),
{
}

/// `s` ends with a dot followed by `leaf`, where `leaf` holds no dot, exactly
/// when `s` has a dot and its last dotted segment is `leaf`.
proof fn lemma_dot_then_leaf(s: Seq<char>, leaf: Seq<char>)
    requires
        !leaf.contains('.'),
    ensures
        spec_ends_with(s, seq!['.'] + leaf) <==> (s.contains('.') && spec_leaf(s) == leaf),
{
    let n = s.len() as int;
    let a = crate::text::after_last(s, '.', n);
    crate::text::lemma_leaf_is_suffix(s);
    crate::text::lemma_after_last_bounds(s, '.', n);
    let tail = seq!['.'] + leaf;
    if spec_ends_with(s, tail) {
        let p = n - leaf.len() - 1;
        assert(s.subrange(n - tail.len(), n)[0] == tail[0]);
        assert(s[p] == '.');
        if a > n - leaf.len() {
            assert(s.subrange(n - tail.len(), n)[a - 1 - p] == tail[a - 1 - p]);
            assert(leaf[a - 1 - p - 1] == s[a - 1]);
            assert(leaf.contains(leaf[a - 2 - p]));
        }
        assert(a == n - leaf.len());
        assert(s.subrange(a, n) =~= leaf) by {
            assert forall|i: int| 0 <= i < leaf.len() implies s.subrange(a, n)[i] == leaf[i] by {
                assert(s.subrange(n - tail.len(), n)[i + 1] == tail[i + 1]);
            }
        }
        assert(s.contains(s[p]));
    }
    if s.contains('.') && spec_leaf(s) == leaf {
        let i = choose|i: int| 0 <= i < n && s[i] == '.';
        assert(a > 0);
        assert(s.subrange(n - tail.len(), n) =~= tail) by {
            assert(s.subrange(a, n) == leaf);
            assert forall|j: int| 0 <= j < tail.len() implies s.subrange(n - tail.len(), n)[j] == tail[j] by {
                if j > 0 {
                    assert(s.subrange(a, n)[j - 1] == leaf[j - 1]);
                }
            }
        }
    }
}

/// The last dotted segment of a name holds no dot.
proof fn lemma_leaf_has_no_dot(s: Seq<char>)
    ensures
        !spec_leaf(s).contains('.'),
{
    let n = s.len() as int;
    crate::text::lemma_leaf_is_suffix(s);
    crate::text::lemma_after_last_bounds(s, '.', n);
    let a = crate::text::after_last(s, '.', n);
    if spec_leaf(s).contains('.') {
        let i = choose|i: int| 0 <= i < spec_leaf(s).len() && spec_leaf(s)[i] == '.';
        assert(s[a + i] == '.');
    }
}

/// A base named neither in its own module nor by its full path resolves by
/// its last dotted segment: to the one known class whose own last dotted
/// segment is the same, and to nothing when no class or more than one has it.
/// A class whose name merely ends in the same letters is no match.
pub proof fn law_resolve_by_last_segment(keys: Seq<Seq<char>>, base: Seq<char>, from_module: Seq<char>, k: Seq<char>)
    requires
        !keys.contains(dotted(from_module, base)),
        !keys.contains(base),
    ensures
        spec_resolve(keys, base, from_module) == Some(k) <==> ({
            &&& keys.contains(k)
            &&& k.contains('.')
            &&& spec_leaf(k) == spec_leaf(base)
            &&& forall|j: Seq<char>|
                keys.contains(j) && j.contains('.') && spec_leaf(j) == spec_leaf(base) ==> j == k
        }),
{
    let leaf = spec_leaf(base);
    let tail = seq!['.'] + leaf;
    lemma_leaf_has_no_dot(base);
    assert forall|j: Seq<char>| #[trigger] tail_hit(keys, tail, j) <==> (keys.contains(j) && j.contains('.') && spec_leaf(j)
        == leaf) by {
        lemma_dot_then_leaf(j, leaf);
    }
    if spec_resolve(keys, base, from_module) == Some(k) {
        assert(tail_hit(keys, tail, k));
        assert forall|j: Seq<char>| keys.contains(j) && j.contains('.') && spec_leaf(j) == leaf implies j == k by {
            assert(tail_hit(keys, tail, j));
        }
    }
    if keys.contains(k) && k.contains('.') && spec_leaf(k) == leaf && forall|j: Seq<char>|
        keys.contains(j) && j.contains('.') && spec_leaf(j) == leaf ==> j == k {
        assert(tail_hit(keys, tail, k));
        assert forall|a: Seq<char>, b: Seq<char>| tail_hit(keys, tail, a) && tail_hit(keys, tail, b) implies a == b by {
            assert(keys.contains(a) && a.contains('.') && spec_leaf(a) == leaf);
            assert(keys.contains(b) && b.contains('.') && spec_leaf(b) == leaf);
        }
        assert(unique_tail_hit(keys, tail));
        let c = choose|c: Seq<char>| tail_hit(keys, tail, c);
        assert(keys.contains(c) && c.contains('.') && spec_leaf(c) == leaf);
    }
}

/// Best-effort resolution of a base-class expression to a qualified name within
/// the package. Python imports are not followed; we match on structure alone,
/// which covers the common cases (same-module reference, absolute dotted path,
/// and a name imported from elsewhere in the package).
pub fn resolve<'a>(subjects: &'a StrMap<Subject>, base: &str, from_module: &str) -> (r: Option<&'a str>)
    ensures
        match r {
            Some(k) => spec_resolve(subjects.key_list(), base@, from_module@) == Some(k@),
            None => spec_resolve(subjects.key_list(), base@, from_module@) is None,
        },
{
    resolve_in(subjects, base, from_module)
}

/// `resolve` against the keys of any name-keyed map.
pub fn resolve_in<'a, V>(subjects: &'a StrMap<V>, base: &str, from_module: &str) -> (r: Option<&'a str>)
    ensures
        match r {
            Some(k) => spec_resolve(subjects.key_list(), base@, from_module@) == Some(k@),
            None => spec_resolve(subjects.key_list(), base@, from_module@) is None,
        },
{
    let ghost keys = subjects.key_list();
    // Same module: `class B(A)` where A lives alongside it.
    let local = dot(from_module, base);
    if let Ok(i) = subjects.find(local.as_str()) {
        return Some(subjects.key_at(i).as_str());
    }
    // Absolute dotted path: `class B(pkg.mod.A)`.
    if let Ok(i) = subjects.find(base) {
        return Some(subjects.key_at(i).as_str());
    }
    // Imported name: match the trailing segment against every known subject and
    // accept only an unambiguous hit.
    let leaf = crate::text::leaf_of(base);
    let mut tail = String::new();
    tail.push('.');
    let tail = joined(tail.as_str(), leaf.as_str());
    assert(tail@ =~= seq!['.'] + spec_leaf(base@));
    let n = subjects.len();
    let mut first: Option<usize> = None;
    let mut i: usize = 0;
    while i < n
        invariant
            keys == subjects.key_list(),
            subjects.inv(),
            n == keys.len(),
            i <= n,
            !keys.contains(dotted(from_module@, base@)),
            !keys.contains(base@),
            tail@ == seq!['.'] + spec_leaf(base@),
            match first {
                None => forall|j: int| 0 <= j < i ==> !spec_ends_with(#[trigger] keys[j], tail@),
                Some(f) => f < i && spec_ends_with(keys[f as int], tail@) && forall|j: int|
                    0 <= j < i && j != f ==> !spec_ends_with(#[trigger] keys[j], tail@),
            },
        decreases n - i,
    {
        let k = subjects.key_at(i);
        if ends_with(k.as_str(), tail.as_str()) {
            match first {
                None => {
                    first = Some(i);
                },
                Some(f) => {
                    proof {
                        assert(keys.contains(keys[f as int]));
                        assert(keys.contains(keys[i as int]));
                        assert(tail_hit(keys, tail@, keys[f as int]));
                        assert(tail_hit(keys, tail@, keys[i as int]));
                        crate::text::lemma_lt_order(keys[f as int], keys[i as int], keys[i as int]);
                        assert(subjects.inv());
                        assert(crate::text::seq_lt(keys[f as int], keys[i as int]));
                        assert(keys[f as int] != keys[i as int]);
                        assert(!unique_tail_hit(keys, tail@));
                        assert(!keys.contains(dotted(from_module@, base@)));
                        assert(!keys.contains(base@));
                        assert(spec_resolve(keys, base@, from_module@) is None);
                    }
                    return None;  // ambiguous — treat as external rather than guess
                },
            }
        }
        i = i + 1;
    }
    match first {
        None => {
            proof {
                assert forall|k: Seq<char>| !tail_hit(keys, tail@, k) by {
                    if keys.contains(k) {
                        let j = choose|j: int| 0 <= j < keys.len() && keys[j] == k;
                        assert(!spec_ends_with(keys[j], tail@));
                    }
                }
            }
            None
        },
        Some(f) => {
            proof {
                assert(tail_hit(keys, tail@, keys[f as int]));
                assert forall|a: Seq<char>, b: Seq<char>| tail_hit(keys, tail@, a) && tail_hit(keys, tail@, b) implies a == b by {
                    let ja = choose|j: int| 0 <= j < keys.len() && keys[j] == a;
                    let jb = choose|j: int| 0 <= j < keys.len() && keys[j] == b;
                    assert(spec_ends_with(keys[ja], tail@));
                    assert(spec_ends_with(keys[jb], tail@));
                }
            }
            Some(subjects.key_at(f).as_str())
        },
    }
}

/// The in-package classes that `bases` resolve to, in declaration order.
pub open spec fn resolved_bases(keys: Seq<Seq<char>>, bases: Seq<Seq<char>>, module: Seq<char>) -> Seq<
    Seq<char>,
>
    decreases bases.len(),
{
    if bases.len() == 0 {
        Seq::empty()
    } else {
        let rest = resolved_bases(keys, bases.drop_last(), module);
        match spec_resolve(keys, bases.last(), module) {
            Some(q) => rest.push(q),
            None => rest,
        }
    }
}

pub proof fn lemma_resolved_bases_known(keys: Seq<Seq<char>>, bases: Seq<Seq<char>>, module: Seq<char>)
    ensures
        forall|x: Seq<char>| #[trigger] resolved_bases(keys, bases, module).contains(x) ==> keys.contains(x),
    decreases bases.len(),
{
    if bases.len() > 0 {
        lemma_resolved_bases_known(keys, bases.drop_last(), module);
        let rest = resolved_bases(keys, bases.drop_last(), module);
        match spec_resolve(keys, bases.last(), module) {
            Some(q) => {
                crate::text::lemma_push_contains(rest, q);
            },
            None => {},
        }
    }
}

/// In-package bases of a class, as the dossier's subjects record them.
pub open spec fn bases_of(subjects: StrMap<Subject>, class: Seq<char>) -> Seq<Seq<char>> {
    if subjects.has(class) {
        let s = subjects.value_of(class)@;
        resolved_bases(subjects.key_list(), s.bases, s.module)
    } else {
        Seq::empty()
    }
}

/// `p` walks from class to in-package base, one step at a time.
pub open spec fn is_lineage(subjects: StrMap<Subject>, p: Seq<Seq<char>>) -> bool {
    &&& p.len() > 0
    &&& forall|i: int| 0 <= i < p.len() - 1 ==> #[trigger] bases_of(subjects, p[i]).contains(p[i + 1])
}

/// `to` is `from` itself or something it inherits from within the package.
pub open spec fn inherits(subjects: StrMap<Subject>, from: Seq<char>, to: Seq<char>) -> bool {
    exists|p: Seq<Seq<char>>| #[trigger] is_lineage(subjects, p) && p[0] == from && p.last() == to
}

pub proof fn lemma_inherits_self(subjects: StrMap<Subject>, c: Seq<char>)
    ensures
        inherits(subjects, c, c),
{
    assert(is_lineage(subjects, seq![c]));
}

pub proof fn lemma_inherits_step(subjects: StrMap<Subject>, from: Seq<char>, mid: Seq<char>, to: Seq<char>)
    requires
        inherits(subjects, from, mid),
        bases_of(subjects, mid).contains(to),
    ensures
        inherits(subjects, from, to),
{
    let p = choose|p: Seq<Seq<char>>| #[trigger] is_lineage(subjects, p) && p[0] == from && p.last() == mid;
    let q = p.push(to);
    assert forall|i: int| 0 <= i < q.len() - 1 implies #[trigger] bases_of(subjects, q[i]).contains(q[i + 1]) by {
        if i < p.len() - 1 {
            assert(q[i] == p[i] && q[i + 1] == p[i + 1]);
        }
    }
    assert(is_lineage(subjects, q));
}

/// Whether the operation `class.method` exists.
pub open spec fn defines(operations: StrMap<Operation>, class: Seq<char>, method: Seq<char>) -> bool {
    operations.has(dotted(class, method))
}

/// The breadth-first search for `method` from `queue[head]` on, with the
/// classes in `seen` already searched: each class is searched once, in the
/// order it was queued, and queues its in-package bases in declaration
/// order. `fuel` bounds the number of steps taken.
pub open spec fn search_from(
    subjects: StrMap<Subject>,
    operations: StrMap<Operation>,
    method: Seq<char>,
    queue: Seq<Seq<char>>,
    head: int,
    seen: Set<Seq<char>>,
    fuel: nat,
) -> Option<Seq<char>>
    decreases fuel,
{
    if fuel == 0 || head < 0 || head >= queue.len() {
        None
    } else {
        let cur = queue[head];
        if seen.contains(cur) {
            search_from(subjects, operations, method, queue, head + 1, seen, (fuel - 1) as nat)
        } else if defines(operations, cur, method) {
            Some(dotted(cur, method))
        } else {
            search_from(
                subjects,
                operations,
                method,
                queue + bases_of(subjects, cur),
                head + 1,
                seen.insert(cur),
                (fuel - 1) as nat,
            )
        }
    }
}

/// From `f` steps on, the search for `method` from `class` finds `r`, however
/// many more steps it is allowed.
pub open spec fn lookup_settles(
    subjects: StrMap<Subject>,
    operations: StrMap<Operation>,
    class: Seq<char>,
    method: Seq<char>,
    r: Option<Seq<char>>,
    f: nat,
) -> bool {
    forall|g: nat| g >= f ==> #[trigger] lookup_order(subjects, operations, class, method, g) == r
}

/// What `fuel` steps of the search for `method` from `class` find.
pub open spec fn lookup_order(
    subjects: StrMap<Subject>,
    operations: StrMap<Operation>,
    class: Seq<char>,
    method: Seq<char>,
    fuel: nat,
) -> Option<Seq<char>> {
    search_from(subjects, operations, method, seq![class], 0, Set::empty(), fuel)
}

/// Everything observed in one snapshot of the package.
#[derive(Debug)]
pub struct Dossier {
    /// Human-readable provenance, e.g. `HEAD @ a1b2c3d`.
    pub label: String,
    /// Number of Python files read.
    pub files: usize,
    pub subjects: StrMap<Subject>,
    pub operations: StrMap<Operation>,
    /// module -> (local name -> dotted path it was imported from).
    pub imports: StrMap<StrMap<String>>,
}

impl Dossier {
    pub fn new(label: &str) -> (d: Self)
        ensures
            d.label@ == label@,
            d.files == 0,
            d.subjects.key_list().len() == 0,
            d.operations.key_list().len() == 0,
            d.imports.key_list().len() == 0,
    {
        Self {
            label: owned(label),
            files: 0,
            subjects: StrMap::new(),
            operations: StrMap::new(),
            imports: StrMap::new(),
        }
    }

    /// File a class under its qualified name, replacing any earlier one.
    pub fn insert_subject(&mut self, subject: Subject)
        ensures
            final(self).subjects.has(subject.qualname@),
            final(self).subjects.value_of(subject.qualname@) == subject,
            forall|k: Seq<char>| k != subject.qualname@ ==> (#[trigger] final(self).subjects.has(k) <==> old(self).subjects.has(k)),
            forall|k: Seq<char>| k != subject.qualname@ && old(self).subjects.has(k) ==> #[trigger] final(self).subjects.value_of(k) == old(self).subjects.value_of(k),
            final(self).operations == old(self).operations,
            final(self).imports == old(self).imports,
            final(self).label == old(self).label,
            final(self).files == old(self).files,
    {
        proof {
            use_type_invariant(&self.subjects);
        }
        let key = subject.qualname.clone();
        let ghost kv = key@;
        let ghost sv = subject;
        let ghost before = self.subjects;
        self.subjects.insert(key, subject);
        proof {
            lemma_insert_lookup(before, self.subjects, kv, sv);
        }
    }

    /// File an operation under its callsign, replacing any earlier one.
    pub fn insert_operation(&mut self, operation: Operation)
        ensures
            final(self).operations.has(operation.callsign@),
            final(self).operations.value_of(operation.callsign@) == operation,
            forall|k: Seq<char>| k != operation.callsign@ ==> (#[trigger] final(self).operations.has(k) <==> old(self).operations.has(k)),
            forall|k: Seq<char>| k != operation.callsign@ && old(self).operations.has(k) ==> #[trigger] final(self).operations.value_of(k) == old(self).operations.value_of(k),
            final(self).subjects == old(self).subjects,
            final(self).imports == old(self).imports,
            final(self).label == old(self).label,
            final(self).files == old(self).files,
    {
        proof {
            use_type_invariant(&self.operations);
        }
        let key = operation.callsign.clone();
        let ghost kv = key@;
        let ghost ov = operation;
        let ghost before = self.operations;
        self.operations.insert(key, operation);
        proof {
            lemma_insert_lookup(before, self.operations, kv, ov);
        }
    }

    /// Record that `module` imported `binding.local` from `binding.target`.
    pub fn insert_binding(&mut self, module: &str, binding: Binding)
        ensures
            final(self).imports.has(module@),
            final(self).imports.value_of(module@).has(binding.local@),
            final(self).imports.value_of(module@).value_of(binding.local@)@ == binding.target@,
            forall|l: Seq<char>| l != binding.local@ ==> (#[trigger] final(self).imports.value_of(module@).has(l) <==> (
            old(self).imports.has(module@) && old(self).imports.value_of(module@).has(l))),
            forall|l: Seq<char>| l != binding.local@ && old(self).imports.has(module@) && old(self).imports.value_of(
                module@,
            ).has(l) ==> #[trigger] final(self).imports.value_of(module@).value_of(l) == old(self).imports.value_of(
                module@,
            ).value_of(l),
            forall|k: Seq<char>| k != module@ ==> (#[trigger] final(self).imports.has(k) <==> old(self).imports.has(k)),
            forall|k: Seq<char>| k != module@ && old(self).imports.has(k) ==> #[trigger] final(self).imports.value_of(k) == old(self).imports.value_of(k),
            final(self).subjects == old(self).subjects,
            final(self).operations == old(self).operations,
            final(self).label == old(self).label,
            final(self).files == old(self).files,
    {
        proof {
            use_type_invariant(&self.imports);
        }
        let ghost before = self.imports;
        let mut inner = match self.imports.remove(module) {
            Some(inner) => inner,
            None => StrMap::new(),
        };
        proof {
            use_type_invariant(&inner);
            if !before.has(module@) {
                assert(forall|l: Seq<char>| !inner.has(l));
            }
        }
        let ghost mid = self.imports;
        let ghost target = binding.target;
        let ghost local = binding.local@;
        let ghost inner_before = inner;
        inner.insert(binding.local, binding.target);
        proof {
            lemma_insert_lookup(inner_before, inner, local, target);
        }
        let ghost iv = inner;
        self.imports.insert(owned(module), inner);
        proof {
            lemma_insert_lookup(mid, self.imports, module@, iv);
            lemma_remove_lookup(before, mid, module@);
        }
    }
}

impl Dossier {
    /// Base classes of `class` that are themselves defined in the package.
    pub fn in_package_bases(&self, class: &str) -> (r: Vec<String>)
        ensures
            names(r@) == bases_of(self.subjects, class@),
    {
        let subject = match self.subjects.get(class) {
            Some(s) => s,
            None => {
                let r: Vec<String> = Vec::new();
                assert(names(r@) =~= Seq::<Seq<char>>::empty());
                return r;
            },
        };
        let ghost keys = self.subjects.key_list();
        let ghost bases = names(subject.bases@);
        let mut r: Vec<String> = Vec::new();
        let mut i: usize = 0;
        assert(names(r@) =~= resolved_bases(keys, bases.take(0), subject.module@));
        while i < subject.bases.len()
            invariant
                keys == self.subjects.key_list(),
                bases == names(subject.bases@),
                i <= subject.bases.len(),
                names(r@) == resolved_bases(keys, bases.take(i as int), subject.module@),
            decreases subject.bases.len() - i,
        {
            let ghost before = r@;
            assert(bases.take(i + 1).drop_last() =~= bases.take(i as int));
            assert(bases.take(i + 1).last() == subject.bases@[i as int]@);
            match resolve(&self.subjects, subject.bases[i].as_str(), subject.module.as_str()) {
                Some(q) => {
                    let c = owned(q);
                    r.push(c);
                    assert(names(r@) =~= names(before).push(c@));
                },
                None => {},
            }
            i = i + 1;
        }
        assert(bases.take(i as int) =~= bases);
        r
    }

    /// Find `method` on a class or anything it inherits from in-package.
    /// Classes are searched breadth-first, each once, so an inheritance cycle
    /// ends the search rather than prolonging it.
    pub fn lookup_method(&self, class: &str, method: &str) -> (r: Option<String>)
        ensures
            r matches Some(hit) ==> self.operations.has(hit@) && exists|c: Seq<char>|
                inherits(self.subjects, class@, c) && hit@ == #[trigger] dotted(c, method@),
            r is None ==> forall|c: Seq<char>|
                inherits(self.subjects, class@, c) ==> !#[trigger] defines(self.operations, c, method@),
            defines(self.operations, class@, method@) ==> (r matches Some(hit) && hit@ == dotted(class@, method@)),
            lookup_ok(self.subjects, self.operations, class@, method@, opt_view(r)),
    {
        proof {
            use_type_invariant(&self.subjects);
        }
        let ghost mut steps: nat = 0;
        let ghost subjects = self.subjects;
        let ghost universe = seq![class@] + subjects.key_list();
        let mut queue: Vec<String> = Vec::new();
        queue.push(owned(class));
        let mut head: usize = 0;
        let mut seen: StrMap<()> = StrMap::new();
        proof {
            lemma_inherits_self(subjects, class@);
            assert(universe[0] == class@);
            assert(queue@[0]@ == class@);
            assert(names(queue@) =~= seq![class@]);
            assert(seen.key_list().to_set() =~= Set::<Seq<char>>::empty());
        }
        while head < queue.len()
            invariant
                subjects == self.subjects,
                subjects.inv(),
                universe == seq![class@] + subjects.key_list(),
                seen.inv(),
                head <= queue.len(),
                forall|x: Seq<char>| #[trigger] seen.key_list().contains(x) ==> universe.contains(x),
                forall|j: int| head <= j < queue.len() ==> universe.contains(#[trigger] queue@[j]@),
                forall|x: Seq<char>| #[trigger] seen.key_list().contains(x) ==> inherits(subjects, class@, x),
                forall|j: int| 0 <= j < queue.len() ==> inherits(subjects, class@, #[trigger] queue@[j]@),
                forall|x: Seq<char>| #[trigger] seen.key_list().contains(x) ==> !defines(self.operations, x, method@),
                forall|x: Seq<char>, b: Seq<char>| #[trigger] seen.key_list().contains(x) && #[trigger] bases_of(subjects, x).contains(b) ==>
                    seen.key_list().contains(b) || exists|j: int| head <= j < queue.len() && queue@[j]@ == b,
                seen.key_list().contains(class@) || exists|j: int| head <= j < queue.len() && queue@[j]@ == class@,
                defines(self.operations, class@, method@) ==> head == 0 && queue.len() == 1 && queue@[0]@ == class@,
                forall|g: nat| g >= steps ==> #[trigger] lookup_order(subjects, self.operations, class@, method@, g)
                    == search_from(
                    subjects,
                    self.operations,
                    method@,
                    names(queue@),
                    head as int,
                    seen.key_list().to_set(),
                    (g - steps) as nat,
                ),
            decreases universe.len() - seen.key_list().len(), queue.len() - head,
        {
            proof {
                lemma_sorted_len_bound(seen.key_list(), universe);
            }
            let current = queue[head].clone();
            let ghost qbefore = queue@;
            let ghost seen_set = seen.key_list().to_set();
            proof {
                assert forall|g: nat| g >= steps + 1 implies #[trigger] search_from(
                    subjects,
                    self.operations,
                    method@,
                    names(qbefore),
                    head as int,
                    seen_set,
                    (g - steps) as nat,
                ) == if seen_set.contains(current@) {
                    search_from(subjects, self.operations, method@, names(qbefore), head + 1, seen_set, (g - steps - 1) as nat)
                } else if defines(self.operations, current@, method@) {
                    Some(dotted(current@, method@))
                } else {
                    search_from(
                        subjects,
                        self.operations,
                        method@,
                        names(qbefore) + bases_of(subjects, current@),
                        head + 1,
                        seen_set.insert(current@),
                        (g - steps - 1) as nat,
                    )
                } by {
                    assert(names(qbefore)[head as int] == current@);
                }
                steps = steps + 1;
            }
            head = head + 1;
            if seen.contains_key(current.as_str()) {
                proof {
                    assert(seen_set.contains(current@));
                    assert forall|x: Seq<char>, b: Seq<char>| #[trigger] seen.key_list().contains(x) && #[trigger] bases_of(subjects, x).contains(b) implies
                        seen.key_list().contains(b) || exists|j: int| head <= j < queue.len() && queue@[j]@ == b by {
                        if !seen.key_list().contains(b) {
                            let j = choose|j: int| head - 1 <= j < queue.len() && queue@[j]@ == b;
                            assert(j != head - 1);
                        }
                    }
                    if !seen.key_list().contains(class@) {
                        let j = choose|j: int| head - 1 <= j < queue.len() && queue@[j]@ == class@;
                        assert(j != head - 1);
                    }
                }
                continue;
            }
            let ghost seen_before = seen.key_list();
            let ghost cv = current@;
            proof {
                assert(!seen_set.contains(cv));
            }
            seen.insert(current.clone(), ());
            proof {
                assert(seen.key_list().to_set() =~= seen_set.insert(cv));
            }
            let candidate = dot(current.as_str(), method);
            if self.operations.contains_key(candidate.as_str()) {
                proof {
                    assert forall|g: nat| g >= steps implies #[trigger] lookup_order(
                        subjects,
                        self.operations,
                        class@,
                        method@,
                        g,
                    ) == opt_view(Some(candidate)) by {}
                    assert(lookup_settles(subjects, self.operations, class@, method@, opt_view(Some(candidate)), steps));
                }
                return Some(candidate);
            }
            let bases = self.in_package_bases(current.as_str());
            proof {
                lemma_resolved_bases_known(subjects.key_list(), if subjects.has(cv) { subjects.value_of(cv)@.bases } else { Seq::empty() }, if subjects.has(cv) { subjects.value_of(cv)@.module } else { Seq::empty() });
            }
            let ghost qmid = queue@;
            let mut k: usize = 0;
            while k < bases.len()
                invariant
                    head <= qmid.len(),
                    queue@.len() == qmid.len() + k,
                    k <= bases.len(),
                    forall|j: int| 0 <= j < qmid.len() ==> queue@[j] == qmid[j],
                    forall|j: int| 0 <= j < k ==> queue@[qmid.len() + j]@ == names(bases@)[j],
                decreases bases.len() - k,
            {
                queue.push(bases[k].clone());
                k = k + 1;
            }
            proof {
                let bs = bases_of(subjects, cv);
                assert(names(bases@) == bs);
                assert forall|x: Seq<char>| #[trigger] seen.key_list().contains(x) implies universe.contains(x) by {
                    if x == cv {
                        assert(universe.contains(qbefore[head - 1]@));
                    } else {
                        assert(seen_before.contains(x));
                    }
                }
                assert forall|j: int| head <= j < queue.len() implies universe.contains(#[trigger] queue@[j]@) by {
                    if j >= qmid.len() {
                        let b = names(bases@)[j - qmid.len()];
                        assert(bs.contains(b));
                        if !subjects.has(cv) {
                            assert(bs.len() == 0);
                        }
                        assert(subjects.key_list().contains(b));
                        let w = choose|w: int| 0 <= w < subjects.key_list().len() && subjects.key_list()[w] == b;
                        assert(universe[w + 1] == b);
                    } else {
                        assert(queue@[j] == qbefore[j]);
                    }
                }
                assert(inherits(subjects, class@, cv)) by {
                    assert(queue@[head - 1] == qbefore[head - 1]);
                }
                assert forall|j: int| 0 <= j < queue.len() implies inherits(subjects, class@, #[trigger] queue@[j]@) by {
                    if j >= qmid.len() {
                        let b = names(bases@)[j - qmid.len()];
                        assert(bs.contains(b));
                        lemma_inherits_step(subjects, class@, cv, b);
                    } else {
                        assert(queue@[j] == qbefore[j]);
                    }
                }
                assert forall|x: Seq<char>| #[trigger] seen.key_list().contains(x) implies inherits(subjects, class@, x) by {
                    if x != cv {
                        assert(seen_before.contains(x));
                    }
                }
                assert forall|x: Seq<char>| #[trigger] seen.key_list().contains(x) implies !defines(self.operations, x, method@) by {
                    if x != cv {
                        assert(seen_before.contains(x));
                    }
                }
                assert forall|x: Seq<char>, b: Seq<char>| #[trigger] seen.key_list().contains(x) && #[trigger] bases_of(subjects, x).contains(b) implies
                    seen.key_list().contains(b) || exists|j: int| head <= j < queue.len() && queue@[j]@ == b by {
                    if x == cv {
                        let w = choose|w: int| 0 <= w < bs.len() && bs[w] == b;
                        assert(queue@[qmid.len() + w]@ == b);
                    } else {
                        assert(seen_before.contains(x));
                        if !seen_before.contains(b) {
                            let j = choose|j: int| head - 1 <= j < qbefore.len() && qbefore[j]@ == b;
                            if j == head - 1 {
                                assert(b == cv);
                            } else {
                                assert(queue@[j] == qbefore[j]);
                            }
                        }
                    }
                }
                if !seen_before.contains(class@) {
                    let j = choose|j: int| head - 1 <= j < qbefore.len() && qbefore[j]@ == class@;
                    if j != head - 1 {
                        assert(queue@[j] == qbefore[j]);
                    }
                }
                assert(seen.key_list().len() == seen_before.len() + 1);
                lemma_sorted_len_bound(seen.key_list(), universe);
                assert(names(queue@) =~= names(qbefore) + bs);
            }
        }
        proof {
            assert forall|c: Seq<char>| inherits(subjects, class@, c) implies !#[trigger] defines(self.operations, c, method@) by {
                let p = choose|p: Seq<Seq<char>>| #[trigger] is_lineage(subjects, p) && p[0] == class@ && p.last() == c;
                lemma_lineage_seen(subjects, p, seen.key_list(), p.len() - 1);
            }
            assert forall|g: nat| g >= steps implies #[trigger] lookup_order(
                subjects,
                self.operations,
                class@,
                method@,
                g,
            ) == opt_view(None) by {}
            assert(lookup_settles(subjects, self.operations, class@, method@, opt_view(None), steps));
        }
        None
    }
}

/// What `lookup_method` answers for `class` and `method`: a method that
/// exists on the class or something it inherits from, the class's own when it
/// has one, nothing only when no such method exists, and in every case what
/// the breadth-first search finds first.
pub open spec fn lookup_ok(
    subjects: StrMap<Subject>,
    operations: StrMap<Operation>,
    class: Seq<char>,
    method: Seq<char>,
    r: Option<Seq<char>>,
) -> bool {
    &&& (r matches Some(hit) ==> operations.has(hit) && exists|c: Seq<char>|
        inherits(subjects, class, c) && hit == #[trigger] dotted(c, method))
    &&& (r is None ==> forall|c: Seq<char>|
        inherits(subjects, class, c) ==> !#[trigger] defines(operations, c, method))
    &&& (defines(operations, class, method) ==> r == Some(dotted(class, method)))
    &&& exists|f: nat| #[trigger] lookup_settles(subjects, operations, class, method, r, f)
}

/// A method lookup has one answer: whatever two lookups of the same method
/// from the same class over the same snapshot find, they find the same.
pub proof fn law_lookup_has_one_answer(
    subjects: StrMap<Subject>,
    operations: StrMap<Operation>,
    class: Seq<char>,
    method: Seq<char>,
    r1: Option<Seq<char>>,
    r2: Option<Seq<char>>,
)
    requires
        lookup_ok(subjects, operations, class, method, r1),
        lookup_ok(subjects, operations, class, method, r2),
    ensures
        r1 == r2,
{
    let f1 = choose|f: nat| #[trigger] lookup_settles(subjects, operations, class, method, r1, f);
    let f2 = choose|f: nat| #[trigger] lookup_settles(subjects, operations, class, method, r2, f);
    let g: nat = if f1 >= f2 { f1 } else { f2 };
    assert(lookup_order(subjects, operations, class, method, g) == r1);
    assert(lookup_order(subjects, operations, class, method, g) == r2);
}

/// Some class that `class` is or inherits from defines `method`.
pub open spec fn reaches_definition(
    subjects: StrMap<Subject>,
    operations: StrMap<Operation>,
    class: Seq<char>,
    method: Seq<char>,
) -> bool {
    exists|c: Seq<char>| inherits(subjects, class, c) && #[trigger] defines(operations, c, method)
}

pub proof fn lemma_lookup_some(
    subjects: StrMap<Subject>,
    operations: StrMap<Operation>,
    class: Seq<char>,
    method: Seq<char>,
    r: Option<Seq<char>>,
)
    requires
        lookup_ok(subjects, operations, class, method, r),
    ensures
        r is Some <==> reaches_definition(subjects, operations, class, method),
{
    if r is Some {
        let c = choose|c: Seq<char>| inherits(subjects, class, c) && r->0 == #[trigger] dotted(c, method);
        assert(defines(operations, c, method));
    }
}

/// What a call expression turned out to be.
pub enum Resolution {
    /// A call to another operation in the package.
    To(Seq<char>, Confidence),
    /// Resolved to something inside the package that has no operation to point
    /// at — constructing a class that defines no `__init__`. Not external.
    Inside,
    /// Left the package, or could not be resolved at all.
    Away,
}

pub open spec fn self_dot() -> Seq<char> {
    seq!['s', 'e', 'l', 'f', '.']
}

pub open spec fn cls_dot() -> Seq<char> {
    seq!['c', 'l', 's', '.']
}

pub open spec fn super_dot() -> Seq<char> {
    seq!['s', 'u', 'p', 'e', 'r', '(', ')', '.']
}

pub open spec fn init_name() -> Seq<char> {
    seq!['_', '_', 'i', 'n', 'i', 't', '_', '_']
}

/// Constructing `class` runs its `__init__`; a class of ours with none is
/// still ours.
pub open spec fn construct_ok(d: Dossier, class: Seq<char>, confidence: Confidence, res: Resolution) -> bool {
    exists|r: Option<Seq<char>>|
        #[trigger] lookup_ok(d.subjects, d.operations, class, init_name(), r) && res == match r {
            Some(init) => Resolution::To(init, confidence),
            None => Resolution::Inside,
        }
}

/// `self.m()` / `cls.m()`: the method as the owning class sees it.
pub open spec fn receiver_ok(d: Dossier, o: OperationView, method: Seq<char>, res: Resolution) -> bool {
    match o.owner {
        None => res == Resolution::Away,
        Some(owner) => exists|r: Option<Seq<char>>|
            #[trigger] lookup_ok(d.subjects, d.operations, owner, method, r) && res == match r {
                Some(hit) => Resolution::To(hit, Confidence::Confirmed),
                None => Resolution::Away,
            },
    }
}

/// `super().m()`: the first base, from position `i` on, through which `m`
/// can be reached.
pub open spec fn super_ok(d: Dossier, bases: Seq<Seq<char>>, i: int, method: Seq<char>, res: Resolution) -> bool
    decreases bases.len() - i,
{
    if i < 0 || i >= bases.len() {
        res == Resolution::Away
    } else if reaches_definition(d.subjects, d.operations, bases[i], method) {
        exists|hit: Seq<char>|
            #[trigger] lookup_ok(d.subjects, d.operations, bases[i], method, Some(hit)) && res
                == Resolution::To(hit, Confidence::Confirmed)
    } else {
        super_ok(d, bases, i + 1, method, res)
    }
}

/// The dotted path `name` was imported from in `module`, if an import bound it.
pub open spec fn imported_target(d: Dossier, module: Seq<char>, name: Seq<char>) -> Option<Seq<char>> {
    if d.imports.has(module) && d.imports.value_of(module).has(name) {
        Some(d.imports.value_of(module).value_of(name)@)
    } else {
        None
    }
}

/// `k` is an operation named `name` (and a module-level one unless `all`).
pub open spec fn candidate(operations: StrMap<Operation>, name: Seq<char>, all: bool, k: Seq<char>) -> bool {
    &&& operations.has(k)
    &&& operations.value_of(k)@.name == name
    &&& (all || operations.value_of(k)@.owner is None)
}

/// The single operation carrying `name`, or nothing if the name is ambiguous
/// or unknown.
pub open spec fn spec_unique(operations: StrMap<Operation>, name: Seq<char>, all: bool) -> Option<Seq<char>> {
    if (exists|k: Seq<char>| candidate(operations, name, all, k)) && (forall|a: Seq<char>, b: Seq<char>|
        candidate(operations, name, all, a) && candidate(operations, name, all, b) ==> a == b) {
        Some(choose|k: Seq<char>| candidate(operations, name, all, k))
    } else {
        None
    }
}

/// The rungs for a bare name: a same-module definition, an imported one, and
/// last the only module-level function carrying the name.
pub open spec fn bare_ok(d: Dossier, o: OperationView, raw: Seq<char>, res: Resolution) -> bool {
    let local = dotted(o.module, raw);
    let imported = imported_target(d, o.module, raw);
    if d.operations.has(local) {
        res == Resolution::To(local, Confidence::Confirmed)
    } else if d.subjects.has(local) {
        construct_ok(d, local, Confidence::Confirmed, res)
    } else if imported is Some && d.operations.has(imported->0) {
        res == Resolution::To(imported->0, Confidence::Confirmed)
    } else if imported is Some && d.subjects.has(imported->0) {
        construct_ok(d, imported->0, Confidence::Confirmed, res)
    } else {
        match spec_unique(d.operations, raw, false) {
            Some(hit) => res == Resolution::To(hit, Confidence::Probable),
            None => res == Resolution::Away,
        }
    }
}

/// The rungs for a dotted call: an exact or module-relative name, a path
/// through an imported module, a class by structure, and last the only
/// operation carrying the final segment.
pub open spec fn dotted_ok(d: Dossier, o: OperationView, raw: Seq<char>, res: Resolution) -> bool {
    let qualified = dotted(o.module, raw);
    let at = first_at(raw, '.', 0);
    let head = raw.subrange(0, at);
    let rest = raw.subrange(at + 1, raw.len() as int);
    let base = imported_target(d, o.module, head);
    if d.operations.has(raw) {
        res == Resolution::To(raw, Confidence::Confirmed)
    } else if d.operations.has(qualified) {
        res == Resolution::To(qualified, Confidence::Confirmed)
    } else if base is Some && d.operations.has(dotted(base->0, rest)) {
        res == Resolution::To(dotted(base->0, rest), Confidence::Confirmed)
    } else if base is Some && d.subjects.has(dotted(base->0, rest)) {
        construct_ok(d, dotted(base->0, rest), Confidence::Confirmed, res)
    } else if spec_resolve(d.subjects.key_list(), raw, o.module) is Some {
        construct_ok(d, spec_resolve(d.subjects.key_list(), raw, o.module)->0, Confidence::Probable, res)
    } else {
        match spec_unique(d.operations, spec_leaf(raw), true) {
            Some(hit) => res == Resolution::To(hit, Confidence::Probable),
            None => res == Resolution::Away,
        }
    }
}

/// How one call expression written in `o` resolves, in descending order of
/// certainty.
pub open spec fn trace_ok(d: Dossier, o: OperationView, raw: Seq<char>, res: Resolution) -> bool {
    if spec_starts_with(raw, self_dot()) && !raw.subrange(5, raw.len() as int).contains('.') {
        receiver_ok(d, o, raw.subrange(5, raw.len() as int), res)
    } else if spec_starts_with(raw, cls_dot()) && !raw.subrange(4, raw.len() as int).contains('.') {
        receiver_ok(d, o, raw.subrange(4, raw.len() as int), res)
    } else if spec_starts_with(raw, super_dot()) {
        match o.owner {
            None => res == Resolution::Away,
            Some(owner) => super_ok(d, bases_of(d.subjects, owner), 0, raw.subrange(8, raw.len() as int), res),
        }
    } else if !raw.contains('.') {
        bare_ok(d, o, raw, res)
    } else {
        dotted_ok(d, o, raw, res)
    }
}

/// A bare call name that resolves only by a guess lands on a module-level
/// function carrying that name, never on a method: the guessed target exists,
/// has no owning class, and is named as called.
pub proof fn law_bare_guess_is_a_function(d: Dossier, o: OperationView, raw: Seq<char>, t: Seq<char>)
    requires
        !raw.contains('.'),
        trace_ok(d, o, raw, Resolution::To(t, Confidence::Probable)),
    ensures
        d.operations.has(t),
        d.operations.value_of(t)@.owner is None,
        d.operations.value_of(t)@.name == raw,
{
    reveal_strlit("self.");
    reveal_strlit("cls.");
    reveal_strlit("super().");
    if spec_starts_with(raw, self_dot()) {
        assert(raw.subrange(0, 5)[4] == '.');
        assert(raw.contains(raw[4]));
    }
    if spec_starts_with(raw, cls_dot()) {
        assert(raw.subrange(0, 4)[3] == '.');
        assert(raw.contains(raw[3]));
    }
    if spec_starts_with(raw, super_dot()) {
        assert(raw.subrange(0, 8)[7] == '.');
        assert(raw.contains(raw[7]));
    }
    let res = Resolution::To(t, Confidence::Probable);
    assert(bare_ok(d, o, raw, res));
    let local = dotted(o.module, raw);
    let imported = imported_target(d, o.module, raw);
    if !d.operations.has(local) && !d.subjects.has(local) && !(imported is Some && d.operations.has(imported->0)) && !(
    imported is Some && d.subjects.has(imported->0)) {
        let u = spec_unique(d.operations, raw, false);
        assert(u is Some);
        assert(candidate(d.operations, raw, false, u->0));
    }
}

/// `by_name` lists, for each operation name, the callsigns carrying it, in order.
pub open spec fn name_index_ok(operations: StrMap<Operation>, by_name: StrMap<Vec<String>>) -> bool {
    &&& forall|n: Seq<char>| #[trigger] by_name.has(n) ==> strictly_sorted(names(by_name.value_of(n)@))
    &&& forall|n: Seq<char>, k: Seq<char>| #[trigger] by_name.has(n) ==> (#[trigger] names(by_name.value_of(n)@).contains(k)
        <==> (operations.has(k) && operations.value_of(k)@.name == n))
    &&& forall|k: Seq<char>| #[trigger] operations.has(k) ==> by_name.has(operations.value_of(k)@.name)
}

/// What a call expression turned out to be.
enum Resolved {
    /// A call to another operation in the package.
    To(Link),
    /// Resolved to something inside the package that has no operation to point at.
    Inside,
    /// Left the package, or could not be resolved at all.
    Away,
}

spec fn resolved_view(r: Resolved) -> Resolution {
    match r {
        Resolved::To(link) => Resolution::To(link.target@, link.confidence),
        Resolved::Inside => Resolution::Inside,
        Resolved::Away => Resolution::Away,
    }
}

proof fn lemma_super_skip(d: Dossier, bases: Seq<Seq<char>>, i: int, method: Seq<char>, res: Resolution)
    requires
        0 <= i <= bases.len(),
        forall|j: int| 0 <= j < i ==> !reaches_definition(d.subjects, d.operations, #[trigger] bases[j], method),
    ensures
        super_ok(d, bases, 0, method, res) == super_ok(d, bases, i, method, res),
    decreases i,
{
    if i > 0 {
        lemma_super_skip(d, bases, i - 1, method, res);
        assert(!reaches_definition(d.subjects, d.operations, bases[i - 1], method));
    }
}

/// The single candidate carrying `name`, or nothing if the name is ambiguous.
fn unique(operations: &StrMap<Operation>, by_name: &StrMap<Vec<String>>, name: &str, all: bool) -> (r: Option<String>)
    requires
        name_index_ok(*operations, *by_name),
    ensures
        opt_view(r) == spec_unique(*operations, name@, all),
{
    let list = match by_name.get(name) {
        Some(list) => list,
        None => {
            proof {
                assert forall|k: Seq<char>| !candidate(*operations, name@, all, k) by {
                    if candidate(*operations, name@, all, k) {
                        assert(by_name.has(operations.value_of(k)@.name));
                    }
                }
            }
            return None;
        },
    };
    let ghost ls = names(list@);
    assert(strictly_sorted(ls));
    let mut first: Option<usize> = None;
    let mut i: usize = 0;
    while i < list.len()
        invariant
            ls == names(list@),
            strictly_sorted(ls),
            by_name.has(name@),
            *list == by_name.value_of(name@),
            name_index_ok(*operations, *by_name),
            i <= list.len(),
            match first {
                None => forall|j: int| 0 <= j < i ==> !candidate(*operations, name@, all, #[trigger] ls[j]),
                Some(f) => f < i && candidate(*operations, name@, all, ls[f as int]) && forall|j: int|
                    0 <= j < i && j != f ==> !candidate(*operations, name@, all, #[trigger] ls[j]),
            },
        decreases list.len() - i,
    {
        let c = &list[i];
        assert(ls[i as int] == c@);
        assert(ls.contains(c@));
        let accepted = if all {
            true
        } else {
            match operations.get(c.as_str()) {
                Some(op) => op.owner.is_none(),
                None => false,
            }
        };
        assert(accepted == candidate(*operations, name@, all, c@));
        if accepted {
            match first {
                None => {
                    first = Some(i);
                },
                Some(f) => {
                    proof {
                        assert(seq_lt(ls[f as int], ls[i as int]));
                        lemma_lt_order(ls[f as int], ls[i as int], ls[i as int]);
                    }
                    return None;
                },
            }
        }
        i = i + 1;
    }
    match first {
        None => {
            proof {
                assert forall|k: Seq<char>| !candidate(*operations, name@, all, k) by {
                    if candidate(*operations, name@, all, k) {
                        assert(ls.contains(k));
                        let j = choose|j: int| 0 <= j < ls.len() && ls[j] == k;
                        assert(!candidate(*operations, name@, all, ls[j]));
                    }
                }
            }
            None
        },
        Some(f) => {
            proof {
                let w = ls[f as int];
                assert forall|a: Seq<char>, b: Seq<char>|
                    candidate(*operations, name@, all, a) && candidate(*operations, name@, all, b) implies a == b by {
                    assert(ls.contains(a));
                    assert(ls.contains(b));
                    let ja = choose|j: int| 0 <= j < ls.len() && ls[j] == a;
                    let jb = choose|j: int| 0 <= j < ls.len() && ls[j] == b;
                    assert(candidate(*operations, name@, all, ls[ja]));
                    assert(candidate(*operations, name@, all, ls[jb]));
                }
                assert(candidate(*operations, name@, all, w));
            }
            Some(list[f].clone())
        },
    }
}

impl Dossier {
    /// The dotted path `name` was imported from in `module`, if an import bound it.
    fn import_of(&self, module: &str, name: &str) -> (r: Option<String>)
        ensures
            opt_view(r) == imported_target(*self, module@, name@),
    {
        match self.imports.get(module) {
            Some(bound) => match bound.get(name) {
                Some(target) => Some(target.clone()),
                None => None,
            },
            None => None,
        }
    }

    /// Constructing a class runs its `__init__`. A class of ours that defines
    /// none is still ours — it is not traffic leaving the package.
    fn construct(&self, class: &str, confidence: Confidence) -> (r: Resolved)
        ensures
            construct_ok(*self, class@, confidence, resolved_view(r)),
    {
        let found = self.lookup_method(class, "__init__");
        proof {
            reveal_strlit("__init__");
            assert("__init__"@ =~= init_name());
        }
        let r = match found {
            Some(init) => Resolved::To(Link { target: init, confidence }),
            None => Resolved::Inside,
        };
        assert(lookup_ok(self.subjects, self.operations, class@, init_name(), opt_view(found)));
        r
    }

    /// `self.m()` / `cls.m()`: walk the class hierarchy we already mapped.
    fn receive(&self, op: &Operation, method: &str) -> (r: Resolved)
        ensures
            receiver_ok(*self, op@, method@, resolved_view(r)),
    {
        match &op.owner {
            Some(owner) => {
                let found = self.lookup_method(owner.as_str(), method);
                let ghost fv = opt_view(found);
                let r = match found {
                    Some(hit) => Resolved::To(Link { target: hit, confidence: Confidence::Confirmed }),
                    None => Resolved::Away,
                };
                assert(op@.owner == Some(owner@));
                assert(lookup_ok(self.subjects, self.operations, owner@, method@, fv));
                assert(resolved_view(r) == match fv {
                    Some(hit) => Resolution::To(hit, Confidence::Confirmed),
                    None => Resolution::Away,
                });
                assert(lookup_ok((*self).subjects, (*self).operations, op@.owner->0, method@, fv) && resolved_view(r) == match fv {
                    Some(hit) => Resolution::To(hit, Confidence::Confirmed),
                    None => Resolution::Away,
                });
                r
            },
            None => Resolved::Away,
        }
    }

    /// `super().m()`: start one level up.
    fn trace_super(&self, op: &Operation, method: &str) -> (r: Resolved)
        ensures
            match op@.owner {
                None => resolved_view(r) == Resolution::Away,
                Some(owner) => super_ok(*self, bases_of(self.subjects, owner), 0, method@, resolved_view(r)),
            },
    {
        let owner = match &op.owner {
            Some(owner) => owner,
            None => return Resolved::Away,
        };
        let bases = self.in_package_bases(owner.as_str());
        let ghost bs = names(bases@);
        let mut i: usize = 0;
        while i < bases.len()
            invariant
                bs == names(bases@),
                bs == bases_of(self.subjects, owner@),
                op@.owner == Some(owner@),
                i <= bases.len(),
                forall|j: int| 0 <= j < i ==> !reaches_definition(self.subjects, self.operations, #[trigger] bs[j], method@),
            decreases bases.len() - i,
        {
            let found = self.lookup_method(bases[i].as_str(), method);
            proof {
                assert(bs[i as int] == bases@[i as int]@);
                lemma_lookup_some(self.subjects, self.operations, bs[i as int], method@, opt_view(found));
            }
            match found {
                Some(hit) => {
                    let r = Resolved::To(Link { target: hit, confidence: Confidence::Confirmed });
                    proof {
                        lemma_super_skip(*self, bs, i as int, method@, resolved_view(r));
                        assert(lookup_ok(self.subjects, self.operations, bs[i as int], method@, Some(hit@)));
                        assert(resolved_view(r) == Resolution::To(hit@, Confidence::Confirmed));
                        assert(super_ok(*self, bs, i as int, method@, resolved_view(r)));
                        assert(op@.owner == Some(owner@));
                    }
                    return r;
                },
                None => {},
            }
            i = i + 1;
        }
        proof {
            lemma_super_skip(*self, bs, i as int, method@, Resolution::Away);
            assert(op@.owner == Some(owner@));
        }
        Resolved::Away
    }

    /// A call written as a bare name.
    fn trace_bare(&self, op: &Operation, raw: &str, by_name: &StrMap<Vec<String>>) -> (r: Resolved)
        requires
            name_index_ok(self.operations, *by_name),
        ensures
            bare_ok(*self, op@, raw@, resolved_view(r)),
    {
        // A module-level function in the same file.
        let local = dot(op.module.as_str(), raw);
        if self.operations.contains_key(local.as_str()) {
            return Resolved::To(Link { target: local, confidence: Confidence::Confirmed });
        }
        // Constructing a class in the same file runs its __init__.
        if self.subjects.contains_key(local.as_str()) {
            return self.construct(local.as_str(), Confidence::Confirmed);
        }
        // An imported name is not a guess: the import statement says what it
        // binds to, so this is as certain as a same-module reference.
        if let Some(target) = self.import_of(op.module.as_str(), raw) {
            if self.operations.contains_key(target.as_str()) {
                return Resolved::To(Link { target, confidence: Confidence::Confirmed });
            }
            if self.subjects.contains_key(target.as_str()) {
                return self.construct(target.as_str(), Confidence::Confirmed);
            }
        }
        // Nothing named it outright; fall back to a unique module-level
        // function carrying the name.
        match unique(&self.operations, by_name, raw, false) {
            Some(hit) => Resolved::To(Link { target: hit, confidence: Confidence::Probable }),
            None => Resolved::Away,
        }
    }

    /// A call through a dotted path.
    fn trace_dotted(&self, op: &Operation, raw: &str, by_name: &StrMap<Vec<String>>) -> (r: Resolved)
        requires
            name_index_ok(self.operations, *by_name),
            raw@.contains('.'),
        ensures
            dotted_ok(*self, op@, raw@, resolved_view(r)),
    {
        if self.operations.contains_key(raw) {
            return Resolved::To(Link { target: owned(raw), confidence: Confidence::Confirmed });
        }
        let qualified = dot(op.module.as_str(), raw);
        if self.operations.contains_key(qualified.as_str()) {
            return Resolved::To(Link { target: qualified, confidence: Confidence::Confirmed });
        }
        // `core.transmit()` where `core` was imported: the head names a module
        // we know, so the whole path is determined.
        proof {
            crate::text::lemma_first_at(raw@, '.', 0);
            let w = choose|w: int| 0 <= w < raw@.len() && raw@[w] == '.';
            assert(first_at(raw@, '.', 0) <= w);
        }
        if let Some((head, rest)) = crate::text::split_once(raw, '.') {
            if let Some(base) = self.import_of(op.module.as_str(), head.as_str()) {
                let candidate = dot(base.as_str(), rest.as_str());
                if self.operations.contains_key(candidate.as_str()) {
                    return Resolved::To(Link { target: candidate, confidence: Confidence::Confirmed });
                }
                if self.subjects.contains_key(candidate.as_str()) {
                    return self.construct(candidate.as_str(), Confidence::Confirmed);
                }
            }
        }
        // A dotted path naming a class: again, construction runs __init__.
        if let Some(class) = resolve(&self.subjects, raw, op.module.as_str()) {
            let class = owned(class);
            return self.construct(class.as_str(), Confidence::Probable);
        }
        // `receiver.m()` where we cannot know the receiver's type: accept the
        // match only when exactly one operation in the package carries the name.
        let leaf = crate::text::leaf_of(raw);
        match unique(&self.operations, by_name, leaf.as_str(), true) {
            Some(hit) => Resolved::To(Link { target: hit, confidence: Confidence::Probable }),
            None => Resolved::Away,
        }
    }

    /// Resolve one call expression, in descending order of certainty.
    fn trace(&self, op: &Operation, raw: &str, by_name: &StrMap<Vec<String>>) -> (r: Resolved)
        requires
            name_index_ok(self.operations, *by_name),
        ensures
            trace_ok(*self, op@, raw@, resolved_view(r)),
    {
        proof {
            reveal_strlit("self.");
            reveal_strlit("cls.");
            reveal_strlit("super().");
            assert("self."@ =~= self_dot());
            assert("cls."@ =~= cls_dot());
            assert("super()."@ =~= super_dot());
        }
        let ghost rv = raw@;
        if let Some(rest) = strip_prefix(raw, "self.") {
            assert(rv.subrange(0, 5) =~= self_dot());
            if !has_char(rest.as_str(), '.') {
                assert(rv.subrange(5, rv.len() as int) =~= rest@);
                assert(spec_starts_with(rv, self_dot()));
                return self.receive(op, rest.as_str());
            }
            assert(rv.subrange(5, rv.len() as int) =~= rest@);
        }
        if let Some(rest) = strip_prefix(raw, "cls.") {
            assert(rv.subrange(0, 4) =~= cls_dot());
            assert(rv[0] == 'c');
            assert(!spec_starts_with(rv, self_dot())) by {
                if spec_starts_with(rv, self_dot()) {
                    assert(rv.subrange(0, 5)[0] == 's');
                }
            }
            if !has_char(rest.as_str(), '.') {
                assert(rv.subrange(4, rv.len() as int) =~= rest@);
                return self.receive(op, rest.as_str());
            }
            assert(rv.subrange(4, rv.len() as int) =~= rest@);
        }
        if let Some(rest) = strip_prefix(raw, "super().") {
            assert(rv.subrange(0, 8) =~= super_dot());
            assert(rv[0] == 's' && rv[1] == 'u');
            assert(!spec_starts_with(rv, self_dot())) by {
                if spec_starts_with(rv, self_dot()) {
                    assert(rv.subrange(0, 5)[1] == 'e');
                }
            }
            assert(!spec_starts_with(rv, cls_dot())) by {
                if spec_starts_with(rv, cls_dot()) {
                    assert(rv.subrange(0, 4)[0] == 'c');
                }
            }
            assert(rv.subrange(8, rv.len() as int) =~= rest@);
            return self.trace_super(op, rest.as_str());
        }
        if !has_char(raw, '.') {
            assert(!spec_starts_with(rv, self_dot())) by {
                if spec_starts_with(rv, self_dot()) {
                    assert(rv[4] == rv.subrange(0, 5)[4]);
                }
            }
            assert(!spec_starts_with(rv, cls_dot())) by {
                if spec_starts_with(rv, cls_dot()) {
                    assert(rv[3] == rv.subrange(0, 4)[3]);
                }
            }
            assert(!spec_starts_with(rv, super_dot())) by {
                if spec_starts_with(rv, super_dot()) {
                    assert(rv[7] == rv.subrange(0, 8)[7]);
                }
            }
            return self.trace_bare(op, raw, by_name);
        }
        self.trace_dotted(op, raw, by_name)
    }
}

/// Some call resolved to `t`.
pub open spec fn resolves_to(res: Seq<Resolution>, t: Seq<char>) -> bool {
    exists|i: int| 0 <= i < res.len() && (#[trigger] res[i] matches Resolution::To(x, _) && x == t)
}

/// The best grade any call to `t` earned: confirmed if any spelling pins it down.
pub open spec fn grade_of(res: Seq<Resolution>, t: Seq<char>) -> Confidence {
    if exists|i: int| 0 <= i < res.len() && #[trigger] res[i] == Resolution::To(t, Confidence::Confirmed) {
        Confidence::Confirmed
    } else {
        Confidence::Probable
    }
}

/// How many calls left the package.
pub open spec fn away_count(res: Seq<Resolution>) -> nat
    decreases res.len(),
{
    if res.len() == 0 {
        0
    } else {
        away_count(res.drop_last()) + if res.last() == Resolution::Away {
            1nat
        } else {
            0nat
        }
    }
}

/// The links of an operation: one per callee other than itself, sorted by
/// target, each carrying the best grade among the calls that reach it.
pub open spec fn links_ok(links: Seq<(Seq<char>, Confidence)>, res: Seq<Resolution>, callsign: Seq<char>) -> bool {
    &&& strictly_sorted(link_targets(links))
    &&& forall|t: Seq<char>| #[trigger] link_targets(links).contains(t) <==> (t != callsign && resolves_to(res, t))
    &&& forall|j: int| 0 <= j < links.len() ==> (#[trigger] links[j]).1 == grade_of(res, links[j].0)
}

/// What wiring makes of an operation `o`, given how each of its calls resolved.
pub open spec fn wired(o: OperationView, res: Seq<Resolution>, w: OperationView) -> bool {
    &&& w.callsign == o.callsign
    &&& w.name == o.name
    &&& w.module == o.module
    &&& w.owner == o.owner
    &&& w.file == o.file
    &&& w.line == o.line
    &&& w.params == o.params
    &&& w.decorators == o.decorators
    &&& w.is_async == o.is_async
    &&& w.raw_calls == o.raw_calls
    &&& links_ok(w.links, res, o.callsign)
    &&& w.external == away_count(res)
    &&& w.recursive == resolves_to(res, o.callsign)
}

/// `w` is `o` wired against the dossier `d`: every call traced, one
/// resolution per call as written.
pub open spec fn wired_in(d: Dossier, o: OperationView, w: OperationView) -> bool {
    exists|res: Seq<Resolution>|
        #![trigger wired(o, res, w)]
        res.len() == o.raw_calls.len() && (forall|i: int| 0 <= i < res.len() ==> #[trigger] trace_ok(d, o, o.raw_calls[i], res[i]))
            && wired(o, res, w)
}

proof fn lemma_construct_unique(d: Dossier, class: Seq<char>, g: Confidence, r1: Resolution, r2: Resolution)
    requires
        construct_ok(d, class, g, r1),
        construct_ok(d, class, g, r2),
    ensures
        r1 == r2,
{
    let x1 = choose|r: Option<Seq<char>>| #[trigger] lookup_ok(d.subjects, d.operations, class, init_name(), r) && r1 == match r {
        Some(init) => Resolution::To(init, g),
        None => Resolution::Inside,
    };
    let x2 = choose|r: Option<Seq<char>>| #[trigger] lookup_ok(d.subjects, d.operations, class, init_name(), r) && r2 == match r {
        Some(init) => Resolution::To(init, g),
        None => Resolution::Inside,
    };
    law_lookup_has_one_answer(d.subjects, d.operations, class, init_name(), x1, x2);
}

proof fn lemma_super_unique(d: Dossier, bases: Seq<Seq<char>>, i: int, method: Seq<char>, r1: Resolution, r2: Resolution)
    requires
        super_ok(d, bases, i, method, r1),
        super_ok(d, bases, i, method, r2),
    ensures
        r1 == r2,
    decreases bases.len() - i,
{
    if 0 <= i < bases.len() {
        if reaches_definition(d.subjects, d.operations, bases[i], method) {
            let h1 = choose|hit: Seq<char>| #[trigger] lookup_ok(d.subjects, d.operations, bases[i], method, Some(hit)) && r1
                == Resolution::To(hit, Confidence::Confirmed);
            let h2 = choose|hit: Seq<char>| #[trigger] lookup_ok(d.subjects, d.operations, bases[i], method, Some(hit)) && r2
                == Resolution::To(hit, Confidence::Confirmed);
            law_lookup_has_one_answer(d.subjects, d.operations, bases[i], method, Some(h1), Some(h2));
        } else {
            lemma_super_unique(d, bases, i + 1, method, r1, r2);
        }
    }
}

/// A call expression resolves one way only, given the snapshot and where it
/// is written.
proof fn lemma_trace_unique(d: Dossier, o1: OperationView, o2: OperationView, raw: Seq<char>, r1: Resolution, r2: Resolution)
    requires
        o1.owner == o2.owner,
        o1.module == o2.module,
        trace_ok(d, o1, raw, r1),
        trace_ok(d, o2, raw, r2),
    ensures
        r1 == r2,
{
    if spec_starts_with(raw, self_dot()) && !raw.subrange(5, raw.len() as int).contains('.') {
        lemma_receiver_unique(d, o1, o2, raw.subrange(5, raw.len() as int), r1, r2);
    } else if spec_starts_with(raw, cls_dot()) && !raw.subrange(4, raw.len() as int).contains('.') {
        lemma_receiver_unique(d, o1, o2, raw.subrange(4, raw.len() as int), r1, r2);
    } else if spec_starts_with(raw, super_dot()) {
        if let Some(owner) = o1.owner {
            lemma_super_unique(d, bases_of(d.subjects, owner), 0, raw.subrange(8, raw.len() as int), r1, r2);
        }
    } else if !raw.contains('.') {
        let local = dotted(o1.module, raw);
        let imported = imported_target(d, o1.module, raw);
        if !d.operations.has(local) && d.subjects.has(local) {
            lemma_construct_unique(d, local, Confidence::Confirmed, r1, r2);
        } else if !d.operations.has(local) && !d.subjects.has(local) && imported is Some && !d.operations.has(
            imported->0,
        ) && d.subjects.has(imported->0) {
            lemma_construct_unique(d, imported->0, Confidence::Confirmed, r1, r2);
        }
    } else {
        let qualified = dotted(o1.module, raw);
        let at = first_at(raw, '.', 0);
        let head = raw.subrange(0, at);
        let rest = raw.subrange(at + 1, raw.len() as int);
        let base = imported_target(d, o1.module, head);
        if !d.operations.has(raw) && !d.operations.has(qualified) && !(base is Some && d.operations.has(
            dotted(base->0, rest),
        )) {
            if base is Some && d.subjects.has(dotted(base->0, rest)) {
                lemma_construct_unique(d, dotted(base->0, rest), Confidence::Confirmed, r1, r2);
            } else if spec_resolve(d.subjects.key_list(), raw, o1.module) is Some {
                lemma_construct_unique(
                    d,
                    spec_resolve(d.subjects.key_list(), raw, o1.module)->0,
                    Confidence::Probable,
                    r1,
                    r2,
                );
            }
        }
    }
}

proof fn lemma_receiver_unique(d: Dossier, o1: OperationView, o2: OperationView, method: Seq<char>, r1: Resolution, r2: Resolution)
    requires
        o1.owner == o2.owner,
        receiver_ok(d, o1, method, r1),
        receiver_ok(d, o2, method, r2),
    ensures
        r1 == r2,
{
    if let Some(owner) = o1.owner {
        let x1 = choose|r: Option<Seq<char>>| #[trigger] lookup_ok(d.subjects, d.operations, owner, method, r) && r1 == match r {
            Some(hit) => Resolution::To(hit, Confidence::Confirmed),
            None => Resolution::Away,
        };
        let x2 = choose|r: Option<Seq<char>>| #[trigger] lookup_ok(d.subjects, d.operations, owner, method, r) && r2 == match r {
            Some(hit) => Resolution::To(hit, Confidence::Confirmed),
            None => Resolution::Away,
        };
        law_lookup_has_one_answer(d.subjects, d.operations, owner, method, x1, x2);
    }
}

/// Links drawn from two lists of resolutions holding the same resolutions are
/// the same links.
proof fn lemma_links_unique(
    res1: Seq<Resolution>,
    res2: Seq<Resolution>,
    callsign: Seq<char>,
    l1: Seq<(Seq<char>, Confidence)>,
    l2: Seq<(Seq<char>, Confidence)>,
)
    requires
        links_ok(l1, res1, callsign),
        links_ok(l2, res2, callsign),
        forall|r: Resolution| #[trigger] res1.contains(r) <==> res2.contains(r),
    ensures
        l1 == l2,
{
    assert forall|t: Seq<char>| #[trigger] resolves_to(res1, t) <==> resolves_to(res2, t) by {
        if resolves_to(res1, t) {
            let i = choose|i: int| 0 <= i < res1.len() && (#[trigger] res1[i] matches Resolution::To(x, _) && x == t);
            assert(res1.contains(res1[i]));
            assert(res2.contains(res1[i]));
            let j = choose|j: int| 0 <= j < res2.len() && res2[j] == res1[i];
            assert(res2[j] matches Resolution::To(x, _) && x == t);
        }
        if resolves_to(res2, t) {
            let j = choose|j: int| 0 <= j < res2.len() && (#[trigger] res2[j] matches Resolution::To(x, _) && x == t);
            assert(res2.contains(res2[j]));
            assert(res1.contains(res2[j]) <==> res2.contains(res2[j]));
            let i = choose|i: int| 0 <= i < res1.len() && res1[i] == res2[j];
            assert(res1[i] matches Resolution::To(x, _) && x == t);
        }
    }
    assert forall|t: Seq<char>| #[trigger] grade_of(res1, t) == grade_of(res2, t) by {
        let hit = Resolution::To(t, Confidence::Confirmed);
        assert(res1.contains(hit) <==> res2.contains(hit));
        if exists|i: int| 0 <= i < res1.len() && #[trigger] res1[i] == hit {
            let i = choose|i: int| 0 <= i < res1.len() && #[trigger] res1[i] == hit;
            assert(res1.contains(hit));
            let j = choose|j: int| 0 <= j < res2.len() && res2[j] == hit;
            assert(res2[j] == hit);
        }
        if exists|j: int| 0 <= j < res2.len() && #[trigger] res2[j] == hit {
            let j = choose|j: int| 0 <= j < res2.len() && #[trigger] res2[j] == hit;
            assert(res2.contains(hit));
            let i = choose|i: int| 0 <= i < res1.len() && res1[i] == hit;
            assert(res1[i] == hit);
        }
    }
    lemma_sorted_unique(link_targets(l1), link_targets(l2));
    assert(l1.len() == link_targets(l1).len());
    assert forall|j: int| 0 <= j < l1.len() implies l1[j] == l2[j] by {
        assert(link_targets(l1)[j] == l1[j].0);
        assert(link_targets(l2)[j] == l2[j].0);
        assert(l1[j].1 == grade_of(res1, l1[j].0));
        assert(l2[j].1 == grade_of(res2, l2[j].0));
    }
    assert(l1 =~= l2);
}

/// The call graph does not depend on the order calls are written in: the
/// same calls, written in any order (or any number of times), wire an
/// operation with the same links, each carrying the best grade any spelling
/// of it earned, and the same answer to whether it calls itself.
pub proof fn law_wiring_ignores_call_order(d: Dossier, o1: OperationView, o2: OperationView, w1: OperationView, w2: OperationView)
    requires
        o1.callsign == o2.callsign,
        o1.owner == o2.owner,
        o1.module == o2.module,
        forall|x: Seq<char>| #[trigger] o1.raw_calls.contains(x) <==> o2.raw_calls.contains(x),
        wired_in(d, o1, w1),
        wired_in(d, o2, w2),
    ensures
        w1.links == w2.links,
        w1.recursive == w2.recursive,
{
    let res1 = choose|res: Seq<Resolution>|
        #![trigger wired(o1, res, w1)]
        res.len() == o1.raw_calls.len() && (forall|i: int| 0 <= i < res.len() ==> #[trigger] trace_ok(d, o1, o1.raw_calls[i], res[i]))
            && wired(o1, res, w1);
    let res2 = choose|res: Seq<Resolution>|
        #![trigger wired(o2, res, w2)]
        res.len() == o2.raw_calls.len() && (forall|i: int| 0 <= i < res.len() ==> #[trigger] trace_ok(d, o2, o2.raw_calls[i], res[i]))
            && wired(o2, res, w2);
    assert forall|r: Resolution| #[trigger] res1.contains(r) <==> res2.contains(r) by {
        if res1.contains(r) {
            let i = choose|i: int| 0 <= i < res1.len() && res1[i] == r;
            assert(trace_ok(d, o1, o1.raw_calls[i], res1[i]));
            assert(o1.raw_calls.contains(o1.raw_calls[i]));
            let j = choose|j: int| 0 <= j < o2.raw_calls.len() && o2.raw_calls[j] == o1.raw_calls[i];
            assert(trace_ok(d, o2, o2.raw_calls[j], res2[j]));
            lemma_trace_unique(d, o1, o2, o1.raw_calls[i], res1[i], res2[j]);
            assert(res2[j] == r);
        }
        if res2.contains(r) {
            let j = choose|j: int| 0 <= j < res2.len() && res2[j] == r;
            assert(trace_ok(d, o2, o2.raw_calls[j], res2[j]));
            assert(o2.raw_calls.contains(o2.raw_calls[j]));
            assert(o1.raw_calls.contains(o2.raw_calls[j]));
            let i = choose|i: int| 0 <= i < o1.raw_calls.len() && o1.raw_calls[i] == o2.raw_calls[j];
            assert(trace_ok(d, o1, o1.raw_calls[i], res1[i]));
            lemma_trace_unique(d, o1, o2, o2.raw_calls[j], res1[i], res2[j]);
            assert(res1[i] == r);
        }
    }
    lemma_links_unique(res1, res2, o1.callsign, w1.links, w2.links);
    let cs = o1.callsign;
    if resolves_to(res1, cs) {
        let i = choose|i: int| 0 <= i < res1.len() && (#[trigger] res1[i] matches Resolution::To(x, _) && x == cs);
        assert(res1.contains(res1[i]));
        let j = choose|j: int| 0 <= j < res2.len() && res2[j] == res1[i];
        assert(res2[j] matches Resolution::To(x, _) && x == cs);
    }
    if resolves_to(res2, cs) {
        let j = choose|j: int| 0 <= j < res2.len() && (#[trigger] res2[j] matches Resolution::To(x, _) && x == cs);
        assert(res2.contains(res2[j]));
        assert(res1.contains(res2[j]) <==> res2.contains(res2[j]));
        let i = choose|i: int| 0 <= i < res1.len() && res1[i] == res2[j];
        assert(res1[i] matches Resolution::To(x, _) && x == cs);
    }
}

/// Two snapshots that agree on everything call resolution reads: the classes,
/// the imports, and which operations exist under which names and owners.
pub open spec fn same_frame(d1: Dossier, d2: Dossier) -> bool {
    &&& d1.subjects == d2.subjects
    &&& d1.imports == d2.imports
    &&& d1.operations.inv()
    &&& d2.operations.inv()
    &&& d1.operations.key_list() == d2.operations.key_list()
    &&& forall|i: int|
        0 <= i < d1.operations.value_list().len() ==> (#[trigger] d1.operations.value_list()[i])@.name
            == d2.operations.value_list()[i]@.name && d1.operations.value_list()[i]@.owner
            == d2.operations.value_list()[i]@.owner
}

proof fn lemma_frame_value(d1: Dossier, d2: Dossier, k: Seq<char>)
    requires
        same_frame(d1, d2),
        d1.operations.has(k),
    ensures
        d1.operations.value_of(k)@.name == d2.operations.value_of(k)@.name,
        d1.operations.value_of(k)@.owner == d2.operations.value_of(k)@.owner,
{
    let i = choose|i: int| 0 <= i < d1.operations.key_list().len() && d1.operations.key_list()[i] == k;
    d1.operations.lemma_index_of(i);
    d2.operations.lemma_index_of(i);
    assert(d1.operations.value_list()[i]@.name == d2.operations.value_list()[i]@.name);
}

proof fn lemma_frame_unique(d1: Dossier, d2: Dossier, name: Seq<char>, all: bool)
    requires
        same_frame(d1, d2),
    ensures
        spec_unique(d1.operations, name, all) == spec_unique(d2.operations, name, all),
{
    assert forall|k: Seq<char>| #[trigger] candidate(d1.operations, name, all, k) == candidate(d2.operations, name, all, k) by {
        if d1.operations.has(k) {
            lemma_frame_value(d1, d2, k);
        }
    }
    let ops1 = d1.operations;
    let ops2 = d2.operations;
    if exists|k: Seq<char>| candidate(ops1, name, all, k) {
        let k = choose|k: Seq<char>| candidate(ops1, name, all, k);
        assert(candidate(ops2, name, all, k));
    }
    if exists|k: Seq<char>| candidate(ops2, name, all, k) {
        let k = choose|k: Seq<char>| candidate(ops2, name, all, k);
        assert(candidate(ops1, name, all, k));
    }
    assert((forall|a: Seq<char>, b: Seq<char>| candidate(ops1, name, all, a) && candidate(ops1, name, all, b) ==> a == b)
        <==> (forall|a: Seq<char>, b: Seq<char>| candidate(ops2, name, all, a) && candidate(ops2, name, all, b) ==> a == b))
        by {
        if forall|a: Seq<char>, b: Seq<char>| candidate(ops1, name, all, a) && candidate(ops1, name, all, b) ==> a == b {
            assert forall|a: Seq<char>, b: Seq<char>| candidate(ops2, name, all, a) && candidate(ops2, name, all, b) implies a
                == b by {
                assert(candidate(ops1, name, all, a) && candidate(ops1, name, all, b));
            }
        }
        if forall|a: Seq<char>, b: Seq<char>| candidate(ops2, name, all, a) && candidate(ops2, name, all, b) ==> a == b {
            assert forall|a: Seq<char>, b: Seq<char>| candidate(ops1, name, all, a) && candidate(ops1, name, all, b) implies a
                == b by {
                assert(candidate(ops2, name, all, a) && candidate(ops2, name, all, b));
            }
        }
    }
    if spec_unique(ops1, name, all) is Some {
        let k1 = choose|k: Seq<char>| candidate(ops1, name, all, k);
        let k2 = choose|k: Seq<char>| candidate(ops2, name, all, k);
        assert(candidate(ops1, name, all, k2));
    }
}

proof fn lemma_frame_search(
    subjects: StrMap<Subject>,
    ops1: StrMap<Operation>,
    ops2: StrMap<Operation>,
    method: Seq<char>,
    queue: Seq<Seq<char>>,
    head: int,
    seen: Set<Seq<char>>,
    fuel: nat,
)
    requires
        ops1.key_list() == ops2.key_list(),
    ensures
        search_from(subjects, ops1, method, queue, head, seen, fuel) == search_from(
            subjects,
            ops2,
            method,
            queue,
            head,
            seen,
            fuel,
        ),
    decreases fuel,
{
    if fuel > 0 && 0 <= head < queue.len() {
        let cur = queue[head];
        lemma_frame_search(subjects, ops1, ops2, method, queue, head + 1, seen, (fuel - 1) as nat);
        lemma_frame_search(
            subjects,
            ops1,
            ops2,
            method,
            queue + bases_of(subjects, cur),
            head + 1,
            seen.insert(cur),
            (fuel - 1) as nat,
        );
    }
}

proof fn lemma_frame_lookup(
    subjects: StrMap<Subject>,
    ops1: StrMap<Operation>,
    ops2: StrMap<Operation>,
    class: Seq<char>,
    method: Seq<char>,
)
    requires
        ops1.key_list() == ops2.key_list(),
    ensures
        forall|r: Option<Seq<char>>| #[trigger] lookup_ok(subjects, ops1, class, method, r) == lookup_ok(subjects, ops2, class, method, r),
        reaches_definition(subjects, ops1, class, method) == reaches_definition(subjects, ops2, class, method),
{
    assert forall|g: nat| #[trigger] lookup_order(subjects, ops1, class, method, g) == lookup_order(subjects, ops2, class, method, g) by {
        lemma_frame_search(subjects, ops1, ops2, method, seq![class], 0, Set::empty(), g);
    }
    assert forall|r: Option<Seq<char>>, f: nat| #[trigger] lookup_settles(subjects, ops1, class, method, r, f)
        == lookup_settles(subjects, ops2, class, method, r, f) by {
        if lookup_settles(subjects, ops1, class, method, r, f) {
            assert forall|g: nat| g >= f implies #[trigger] lookup_order(subjects, ops2, class, method, g) == r by {
                assert(lookup_order(subjects, ops1, class, method, g) == r);
            }
        }
        if lookup_settles(subjects, ops2, class, method, r, f) {
            assert forall|g: nat| g >= f implies #[trigger] lookup_order(subjects, ops1, class, method, g) == r by {
                assert(lookup_order(subjects, ops2, class, method, g) == r);
            }
        }
    }
    assert forall|r: Option<Seq<char>>| #[trigger] lookup_ok(subjects, ops1, class, method, r) == lookup_ok(
        subjects,
        ops2,
        class,
        method,
        r,
    ) by {
        if lookup_ok(subjects, ops1, class, method, r) {
            let f = choose|f: nat| #[trigger] lookup_settles(subjects, ops1, class, method, r, f);
            assert(lookup_settles(subjects, ops2, class, method, r, f));
            if r is None {
                assert forall|c: Seq<char>| inherits(subjects, class, c) implies !#[trigger] defines(ops2, c, method) by {
                    assert(!defines(ops1, c, method));
                }
            }
        }
        if lookup_ok(subjects, ops2, class, method, r) {
            let f = choose|f: nat| #[trigger] lookup_settles(subjects, ops2, class, method, r, f);
            assert(lookup_settles(subjects, ops1, class, method, r, f));
            if r is None {
                assert forall|c: Seq<char>| inherits(subjects, class, c) implies !#[trigger] defines(ops1, c, method) by {
                    assert(!defines(ops2, c, method));
                }
            }
        }
    }
    if reaches_definition(subjects, ops1, class, method) {
        let c = choose|c: Seq<char>| inherits(subjects, class, c) && #[trigger] defines(ops1, c, method);
        assert(defines(ops2, c, method));
    }
    if reaches_definition(subjects, ops2, class, method) {
        let c = choose|c: Seq<char>| inherits(subjects, class, c) && #[trigger] defines(ops2, c, method);
        assert(defines(ops1, c, method));
    }
}

proof fn lemma_frame_construct(d1: Dossier, d2: Dossier, class: Seq<char>, g: Confidence, res: Resolution)
    requires
        same_frame(d1, d2),
    ensures
        construct_ok(d1, class, g, res) == construct_ok(d2, class, g, res),
{
    lemma_frame_lookup(d1.subjects, d1.operations, d2.operations, class, init_name());
    if construct_ok(d1, class, g, res) {
        let r = choose|r: Option<Seq<char>>| #[trigger] lookup_ok(d1.subjects, d1.operations, class, init_name(), r) && res
            == match r {
            Some(init) => Resolution::To(init, g),
            None => Resolution::Inside,
        };
        assert(lookup_ok(d2.subjects, d2.operations, class, init_name(), r));
    }
    if construct_ok(d2, class, g, res) {
        let r = choose|r: Option<Seq<char>>| #[trigger] lookup_ok(d2.subjects, d2.operations, class, init_name(), r) && res
            == match r {
            Some(init) => Resolution::To(init, g),
            None => Resolution::Inside,
        };
        assert(lookup_ok(d1.subjects, d1.operations, class, init_name(), r));
    }
}

proof fn lemma_frame_receiver(d1: Dossier, d2: Dossier, o1: OperationView, o2: OperationView, method: Seq<char>, res: Resolution)
    requires
        same_frame(d1, d2),
        o1.owner == o2.owner,
    ensures
        receiver_ok(d1, o1, method, res) == receiver_ok(d2, o2, method, res),
{
    if let Some(owner) = o1.owner {
        lemma_frame_lookup(d1.subjects, d1.operations, d2.operations, owner, method);
        if receiver_ok(d1, o1, method, res) {
            let r = choose|r: Option<Seq<char>>| #[trigger] lookup_ok(d1.subjects, d1.operations, owner, method, r) && res
                == match r {
                Some(hit) => Resolution::To(hit, Confidence::Confirmed),
                None => Resolution::Away,
            };
            assert(lookup_ok(d2.subjects, d2.operations, owner, method, r));
        }
        if receiver_ok(d2, o2, method, res) {
            let r = choose|r: Option<Seq<char>>| #[trigger] lookup_ok(d2.subjects, d2.operations, owner, method, r) && res
                == match r {
                Some(hit) => Resolution::To(hit, Confidence::Confirmed),
                None => Resolution::Away,
            };
            assert(lookup_ok(d1.subjects, d1.operations, owner, method, r));
        }
    }
}

proof fn lemma_frame_super(d1: Dossier, d2: Dossier, bases: Seq<Seq<char>>, i: int, method: Seq<char>, res: Resolution)
    requires
        same_frame(d1, d2),
    ensures
        super_ok(d1, bases, i, method, res) == super_ok(d2, bases, i, method, res),
    decreases bases.len() - i,
{
    if 0 <= i < bases.len() {
        lemma_frame_lookup(d1.subjects, d1.operations, d2.operations, bases[i], method);
        if reaches_definition(d1.subjects, d1.operations, bases[i], method) {
            if super_ok(d1, bases, i, method, res) {
                let hit = choose|hit: Seq<char>| #[trigger] lookup_ok(d1.subjects, d1.operations, bases[i], method, Some(hit)) && res
                    == Resolution::To(hit, Confidence::Confirmed);
                assert(lookup_ok(d2.subjects, d2.operations, bases[i], method, Some(hit)));
            }
            if super_ok(d2, bases, i, method, res) {
                let hit = choose|hit: Seq<char>| #[trigger] lookup_ok(d2.subjects, d2.operations, bases[i], method, Some(hit)) && res
                    == Resolution::To(hit, Confidence::Confirmed);
                assert(lookup_ok(d1.subjects, d1.operations, bases[i], method, Some(hit)));
            }
        } else {
            lemma_frame_super(d1, d2, bases, i + 1, method, res);
        }
    }
}

/// Call resolution reads only what `same_frame` keeps: a call written at the
/// same place resolves the same way in either snapshot.
proof fn lemma_frame_trace(d1: Dossier, d2: Dossier, o1: OperationView, o2: OperationView, raw: Seq<char>, res: Resolution)
    requires
        same_frame(d1, d2),
        o1.owner == o2.owner,
        o1.module == o2.module,
    ensures
        trace_ok(d1, o1, raw, res) == trace_ok(d2, o2, raw, res),
{
    if spec_starts_with(raw, self_dot()) && !raw.subrange(5, raw.len() as int).contains('.') {
        lemma_frame_receiver(d1, d2, o1, o2, raw.subrange(5, raw.len() as int), res);
    } else if spec_starts_with(raw, cls_dot()) && !raw.subrange(4, raw.len() as int).contains('.') {
        lemma_frame_receiver(d1, d2, o1, o2, raw.subrange(4, raw.len() as int), res);
    } else if spec_starts_with(raw, super_dot()) {
        if let Some(owner) = o1.owner {
            lemma_frame_super(d1, d2, bases_of(d1.subjects, owner), 0, raw.subrange(8, raw.len() as int), res);
        }
    } else if !raw.contains('.') {
        let local = dotted(o1.module, raw);
        let imported = imported_target(d1, o1.module, raw);
        assert(imported == imported_target(d2, o2.module, raw));
        lemma_frame_construct(d1, d2, local, Confidence::Confirmed, res);
        if imported is Some {
            lemma_frame_construct(d1, d2, imported->0, Confidence::Confirmed, res);
        }
        lemma_frame_unique(d1, d2, raw, false);
    } else {
        let at = first_at(raw, '.', 0);
        let head = raw.subrange(0, at);
        let rest = raw.subrange(at + 1, raw.len() as int);
        let base = imported_target(d1, o1.module, head);
        assert(base == imported_target(d2, o2.module, head));
        if base is Some {
            lemma_frame_construct(d1, d2, dotted(base->0, rest), Confidence::Confirmed, res);
        }
        if spec_resolve(d1.subjects.key_list(), raw, o1.module) is Some {
            lemma_frame_construct(
                d1,
                d2,
                spec_resolve(d1.subjects.key_list(), raw, o1.module)->0,
                Confidence::Probable,
                res,
            );
        }
        lemma_frame_unique(d1, d2, spec_leaf(raw), true);
    }
}

/// The calls among `raws` that, written in `o`, leave the package.
pub open spec fn away_calls(d: Dossier, o: OperationView, raws: Seq<Seq<char>>) -> nat
    decreases raws.len(),
{
    if raws.len() == 0 {
        0
    } else {
        away_calls(d, o, raws.drop_last()) + if trace_ok(d, o, raws.last(), Resolution::Away) {
            1nat
        } else {
            0nat
        }
    }
}

proof fn lemma_away_calls_count(d: Dossier, o: OperationView, raws: Seq<Seq<char>>, res: Seq<Resolution>)
    requires
        res.len() == raws.len(),
        forall|i: int| 0 <= i < res.len() ==> #[trigger] trace_ok(d, o, raws[i], res[i]),
    ensures
        away_count(res) == away_calls(d, o, raws),
    decreases raws.len(),
{
    if raws.len() > 0 {
        let n = raws.len() - 1;
        assert forall|i: int| 0 <= i < n implies #[trigger] trace_ok(d, o, raws.drop_last()[i], res.drop_last()[i]) by {
            assert(trace_ok(d, o, raws[i], res[i]));
        }
        lemma_away_calls_count(d, o, raws.drop_last(), res.drop_last());
        assert(trace_ok(d, o, raws[n], res[n]));
        if trace_ok(d, o, raws.last(), Resolution::Away) {
            lemma_trace_unique(d, o, o, raws.last(), res.last(), Resolution::Away);
        }
    }
}

proof fn lemma_away_calls_remove(d: Dossier, o: OperationView, raws: Seq<Seq<char>>, j: int)
    requires
        0 <= j < raws.len(),
    ensures
        away_calls(d, o, raws) == away_calls(d, o, raws.remove(j)) + if trace_ok(d, o, raws[j], Resolution::Away) {
            1nat
        } else {
            0nat
        },
    decreases raws.len(),
{
    let n = raws.len() - 1;
    if j == n {
        assert(raws.remove(j) =~= raws.drop_last());
    } else {
        assert(raws.remove(j).drop_last() =~= raws.drop_last().remove(j));
        assert(raws.remove(j).last() == raws.last());
        lemma_away_calls_remove(d, o, raws.drop_last(), j);
        assert(raws.drop_last()[j] == raws[j]);
    }
}

proof fn lemma_away_calls_permuted(d: Dossier, o: OperationView, a: Seq<Seq<char>>, b: Seq<Seq<char>>)
    requires
        a.to_multiset() == b.to_multiset(),
    ensures
        away_calls(d, o, a) == away_calls(d, o, b),
    decreases a.len(),
{
    vstd::seq_lib::to_multiset_len(a);
    vstd::seq_lib::to_multiset_len(b);
    if a.len() > 0 {
        let n = a.len() - 1;
        let x = a[n];
        assert(a.remove(n) =~= a.drop_last());
        vstd::seq_lib::to_multiset_remove(a, n);
        assert(a.contains(x));
        vstd::seq_lib::to_multiset_contains(a, x);
        vstd::seq_lib::to_multiset_contains(b, x);
        let j = choose|j: int| 0 <= j < b.len() && b[j] == x;
        vstd::seq_lib::to_multiset_remove(b, j);
        assert(a.drop_last().to_multiset() == b.remove(j).to_multiset());
        lemma_away_calls_permuted(d, o, a.drop_last(), b.remove(j));
        lemma_away_calls_remove(d, o, b, j);
    }
}

/// Wiring is the same in two snapshots that differ only in what call
/// resolution does not read, for an operation whose calls are the same calls
/// written in another order: the same links, each with the same grade, the
/// same count of calls that leave the package, and the same answer to whether
/// it calls itself.
pub proof fn law_wiring_ignores_call_order_across(
    d1: Dossier,
    d2: Dossier,
    o1: OperationView,
    o2: OperationView,
    w1: OperationView,
    w2: OperationView,
)
    requires
        same_frame(d1, d2),
        o1.callsign == o2.callsign,
        o1.owner == o2.owner,
        o1.module == o2.module,
        o1.raw_calls.to_multiset() == o2.raw_calls.to_multiset(),
        wired_in(d1, o1, w1),
        wired_in(d2, o2, w2),
    ensures
        w1.links == w2.links,
        w1.external == w2.external,
        w1.recursive == w2.recursive,
{
    let res2 = choose|res: Seq<Resolution>|
        #![trigger wired(o2, res, w2)]
        res.len() == o2.raw_calls.len() && (forall|i: int| 0 <= i < res.len() ==> #[trigger] trace_ok(d2, o2, o2.raw_calls[i], res[i]))
            && wired(o2, res, w2);
    assert forall|i: int| 0 <= i < res2.len() implies #[trigger] trace_ok(d1, o2, o2.raw_calls[i], res2[i]) by {
        lemma_frame_trace(d1, d2, o2, o2, o2.raw_calls[i], res2[i]);
    }
    assert(wired(o2, res2, w2));
    assert(wired_in(d1, o2, w2));
    assert forall|x: Seq<char>| #[trigger] o1.raw_calls.contains(x) <==> o2.raw_calls.contains(x) by {
        vstd::seq_lib::to_multiset_contains(o1.raw_calls, x);
        vstd::seq_lib::to_multiset_contains(o2.raw_calls, x);
    }
    law_wiring_ignores_call_order(d1, o1, o2, w1, w2);
    let res1 = choose|res: Seq<Resolution>|
        #![trigger wired(o1, res, w1)]
        res.len() == o1.raw_calls.len() && (forall|i: int| 0 <= i < res.len() ==> #[trigger] trace_ok(d1, o1, o1.raw_calls[i], res[i]))
            && wired(o1, res, w1);
    lemma_away_calls_count(d1, o1, o1.raw_calls, res1);
    assert forall|i: int| 0 <= i < res2.len() implies #[trigger] trace_ok(d1, o1, o2.raw_calls[i], res2[i]) by {
        lemma_frame_trace(d1, d2, o1, o2, o2.raw_calls[i], res2[i]);
    }
    lemma_away_calls_count(d1, o1, o2.raw_calls, res2);
    lemma_away_calls_permuted(d1, o1, o1.raw_calls, o2.raw_calls);
}

/// What `wire` makes of a snapshot: the same label, files, classes, imports
/// and operation keys, with each operation wired against the snapshot as it
/// was before.
pub open spec fn wiring_of(before: Dossier, after: Dossier) -> bool {
    &&& after.label == before.label
    &&& after.files == before.files
    &&& after.subjects == before.subjects
    &&& after.imports == before.imports
    &&& after.operations.key_list() == before.operations.key_list()
    &&& forall|j: int|
        0 <= j < before.operations.value_list().len() ==> wired_in(
            before,
            #[trigger] before.operations.value_list()[j]@,
            after.operations.value_list()[j]@,
        )
}

/// Wiring a wired snapshot again changes nothing: every call resolves as it
/// did the first time, so every operation keeps its links, its count of calls
/// leaving the package and its recursion flag, and nothing else moves.
pub proof fn law_wiring_twice_changes_nothing(d0: Dossier, d1: Dossier, d2: Dossier)
    requires
        d0.operations.inv(),
        d1.operations.inv(),
        d2.operations.inv(),
        wiring_of(d0, d1),
        wiring_of(d1, d2),
    ensures
        d2.label == d1.label,
        d2.files == d1.files,
        d2.subjects == d1.subjects,
        d2.imports == d1.imports,
        d2.operations.key_list() == d1.operations.key_list(),
        d2.operations.value_list().len() == d1.operations.value_list().len(),
        forall|j: int|
            0 <= j < d1.operations.value_list().len() ==> (#[trigger] d2.operations.value_list()[j])@
                == d1.operations.value_list()[j]@,
{
    let vals0 = d0.operations.value_list();
    let vals1 = d1.operations.value_list();
    let vals2 = d2.operations.value_list();
    assert forall|i: int| 0 <= i < vals0.len() implies (#[trigger] vals0[i])@.name == vals1[i]@.name && vals0[i]@.owner
        == vals1[i]@.owner by {
        assert(wired_in(d0, vals0[i]@, vals1[i]@));
        let res = choose|res: Seq<Resolution>|
            #![trigger wired(vals0[i]@, res, vals1[i]@)]
            res.len() == vals0[i]@.raw_calls.len() && (forall|k: int|
                0 <= k < res.len() ==> #[trigger] trace_ok(d0, vals0[i]@, vals0[i]@.raw_calls[k], res[k])) && wired(
                vals0[i]@,
                res,
                vals1[i]@,
            );
    }
    assert(same_frame(d0, d1));
    assert forall|j: int| 0 <= j < vals1.len() implies (#[trigger] vals2[j])@ == vals1[j]@ by {
        let o = vals0[j]@;
        let w1 = vals1[j]@;
        let w2 = vals2[j]@;
        assert(wired_in(d0, o, w1));
        assert(wired_in(d1, w1, w2));
        let res1 = choose|res: Seq<Resolution>|
            #![trigger wired(o, res, w1)]
            res.len() == o.raw_calls.len() && (forall|k: int| 0 <= k < res.len() ==> #[trigger] trace_ok(d0, o, o.raw_calls[k], res[k]))
                && wired(o, res, w1);
        let res2 = choose|res: Seq<Resolution>|
            #![trigger wired(w1, res, w2)]
            res.len() == w1.raw_calls.len() && (forall|k: int|
                0 <= k < res.len() ==> #[trigger] trace_ok(d1, w1, w1.raw_calls[k], res[k])) && wired(w1, res, w2);
        assert forall|k: int| 0 <= k < res1.len() implies res1[k] == res2[k] by {
            assert(trace_ok(d1, w1, w1.raw_calls[k], res2[k]));
            lemma_frame_trace(d0, d1, o, w1, o.raw_calls[k], res2[k]);
            assert(trace_ok(d0, o, o.raw_calls[k], res1[k]));
            lemma_trace_unique(d0, o, o, o.raw_calls[k], res1[k], res2[k]);
        }
        assert(res1 =~= res2);
        lemma_links_unique(res1, res2, o.callsign, w1.links, w2.links);
    }
}

proof fn lemma_away_count_push(res: Seq<Resolution>, x: Resolution)
    ensures
        away_count(res.push(x)) == away_count(res) + if x == Resolution::Away { 1nat } else { 0nat },
{
    assert(res.push(x).drop_last() =~= res);
}

/// Index of operation names over the callsigns that carry them.
fn index_by_name(operations: &StrMap<Operation>) -> (by_name: StrMap<Vec<String>>)
    ensures
        name_index_ok(*operations, by_name),
{
    proof {
        use_type_invariant(operations);
    }
    let ghost keys = operations.key_list();
    let ghost vals = operations.value_list();
    let mut by_name: StrMap<Vec<String>> = StrMap::new();
    let n = operations.len();
    let mut j: usize = 0;
    while j < n
        invariant
            keys == operations.key_list(),
            vals == operations.value_list(),
            operations.inv(),
            n == keys.len(),
            j <= n,
            by_name.inv(),
            forall|m: Seq<char>| #[trigger] by_name.has(m) ==> strictly_sorted(names(by_name.value_of(m)@)),
            forall|m: Seq<char>, k: Seq<char>| #[trigger] by_name.has(m) ==> (#[trigger] names(by_name.value_of(m)@).contains(k)
                <==> exists|p: int| 0 <= p < j && keys[p] == k && vals[p]@.name == m),
            forall|p: int| 0 <= p < j ==> by_name.has(#[trigger] vals[p]@.name),
        decreases n - j,
    {
        let op = operations.value_at(j);
        let key = operations.key_at(j);
        let ghost m = op.name@;
        let ghost before = by_name;
        let mut list = match by_name.remove(op.name.as_str()) {
            Some(list) => list,
            None => Vec::new(),
        };
        let ghost mid = by_name;
        proof {
            lemma_remove_lookup(before, mid, m);
            if before.has(m) {
                assert(list == before.value_of(m));
            } else {
                assert(names(list@) =~= Seq::<Seq<char>>::empty());
            }
        }
        let ghost lbefore = list@;
        list.push(key.clone());
        let ghost lv = list;
        proof {
            assert(names(list@) =~= names(lbefore).push(keys[j as int]));
            crate::text::lemma_push_contains(names(lbefore), keys[j as int]);
            assert forall|a: int, b: int| 0 <= a < b < names(list@).len() implies seq_lt(#[trigger] names(list@)[a], #[trigger] names(list@)[b]) by {
                if b < names(lbefore).len() {
                    assert(names(list@)[a] == names(lbefore)[a]);
                    assert(names(list@)[b] == names(lbefore)[b]);
                } else {
                    assert(names(lbefore).contains(names(lbefore)[a]));
                    if before.has(m) {
                        let p = choose|p: int| 0 <= p < j && keys[p] == names(lbefore)[a] && vals[p]@.name == m;
                        assert(seq_lt(keys[p], keys[j as int]));
                    } else {
                        assert(false);
                    }
                }
            }
        }
        by_name.insert(op.name.clone(), list);
        proof {
            lemma_insert_lookup(mid, by_name, m, lv);
            assert forall|mm: Seq<char>, k: Seq<char>| #[trigger] by_name.has(mm) implies (#[trigger] names(by_name.value_of(mm)@).contains(k)
                <==> exists|p: int| 0 <= p < j + 1 && keys[p] == k && vals[p]@.name == mm) by {
                if mm == m {
                    if names(lv@).contains(k) {
                        if k == keys[j as int] {
                            assert(keys[j as int] == k && vals[j as int]@.name == mm);
                        } else {
                            assert(names(lbefore).contains(k));
                            if !before.has(m) {
                                assert(false);
                            }
                        }
                    }
                    if exists|p: int| 0 <= p < j + 1 && keys[p] == k && vals[p]@.name == mm {
                        let p = choose|p: int| 0 <= p < j + 1 && keys[p] == k && vals[p]@.name == mm;
                        if p < j {
                            assert(before.has(vals[p]@.name));
                            assert(names(lbefore).contains(k));
                        }
                    }
                } else {
                    assert(before.has(mm));
                    if exists|p: int| 0 <= p < j + 1 && keys[p] == k && vals[p]@.name == mm {
                        let p = choose|p: int| 0 <= p < j + 1 && keys[p] == k && vals[p]@.name == mm;
                        assert(p != j);
                    }
                }
            }
            assert forall|p: int| 0 <= p < j + 1 implies by_name.has(#[trigger] vals[p]@.name) by {
                if p < j && vals[p]@.name != m {
                    assert(before.has(vals[p]@.name));
                }
            }
        }
        j = j + 1;
    }
    proof {
        assert forall|m: Seq<char>, k: Seq<char>| #[trigger] by_name.has(m) implies (#[trigger] names(by_name.value_of(m)@).contains(k)
            <==> (operations.has(k) && operations.value_of(k)@.name == m)) by {
            if names(by_name.value_of(m)@).contains(k) {
                let p = choose|p: int| 0 <= p < j && keys[p] == k && vals[p]@.name == m;
                operations.lemma_index_of(p);
            }
            if operations.has(k) && operations.value_of(k)@.name == m {
                let p = choose|p: int| 0 <= p < keys.len() && keys[p] == k;
                operations.lemma_index_of(p);
            }
        }
        assert forall|k: Seq<char>| #[trigger] operations.has(k) implies by_name.has(operations.value_of(k)@.name) by {
            let p = choose|p: int| 0 <= p < keys.len() && keys[p] == k;
            operations.lemma_index_of(p);
        }
    }
    by_name
}

impl Dossier {
    /// Trace every call an operation makes and fold the results into its
    /// links, its count of calls leaving the package, and its recursion flag.
    fn wire_one(&self, op: &Operation, by_name: &StrMap<Vec<String>>) -> (w: Operation)
        requires
            name_index_ok(self.operations, *by_name),
        ensures
            wired_in(*self, op@, w@),
    {
        // Keyed by target so one callee counts once however many times it is
        // called, and keeping the BEST grade rather than the first: the edge is
        // Confirmed if any spelling pins it down.
        let mut best: StrMap<Confidence> = StrMap::new();
        let mut external: usize = 0;
        let mut recursive = false;
        let ghost mut res: Seq<Resolution> = Seq::empty();
        let ghost raws = names(op.raw_calls@);
        let mut i: usize = 0;
        while i < op.raw_calls.len()
            invariant
                raws == names(op.raw_calls@),
                name_index_ok(self.operations, *by_name),
                i <= op.raw_calls.len(),
                res.len() == i,
                best.inv(),
                forall|k: int| 0 <= k < i ==> #[trigger] trace_ok(*self, op@, raws[k], res[k]),
                forall|t: Seq<char>| #[trigger] best.has(t) <==> (t != op.callsign@ && resolves_to(res, t)),
                forall|t: Seq<char>| #[trigger] best.has(t) ==> best.value_of(t) == grade_of(res, t),
                external == away_count(res),
                external <= i,
                recursive == resolves_to(res, op.callsign@),
            decreases op.raw_calls.len() - i,
        {
            let r = self.trace(op, op.raw_calls[i].as_str(), by_name);
            let ghost rv = resolved_view(r);
            let ghost before = res;
            let ghost bbest = best;
            proof {
                res = res.push(rv);
                assert(raws[i as int] == op.raw_calls@[i as int]@);
                lemma_away_count_push(before, rv);
                assert forall|t: Seq<char>| resolves_to(res, t) <==> (resolves_to(before, t) || (rv matches Resolution::To(x, _) && x == t)) by {
                    if resolves_to(res, t) {
                        let k = choose|k: int| 0 <= k < res.len() && (#[trigger] res[k] matches Resolution::To(x, _) && x == t);
                        if k < before.len() {
                            assert(res[k] == before[k]);
                        }
                    }
                    if resolves_to(before, t) {
                        let k = choose|k: int| 0 <= k < before.len() && (#[trigger] before[k] matches Resolution::To(x, _) && x == t);
                        assert(res[k] == before[k]);
                    }
                    if rv matches Resolution::To(x, _) && x == t {
                        assert(res[before.len() as int] == rv);
                    }
                }
                assert forall|t: Seq<char>, c: Confidence| (exists|k: int| 0 <= k < res.len() && #[trigger] res[k] == Resolution::To(t, c))
                    <==> ((exists|k: int| 0 <= k < before.len() && #[trigger] before[k] == Resolution::To(t, c)) || rv == Resolution::To(t, c)) by {
                    if exists|k: int| 0 <= k < res.len() && #[trigger] res[k] == Resolution::To(t, c) {
                        let k = choose|k: int| 0 <= k < res.len() && #[trigger] res[k] == Resolution::To(t, c);
                        if k < before.len() {
                            assert(before[k] == res[k]);
                        }
                    }
                    if exists|k: int| 0 <= k < before.len() && #[trigger] before[k] == Resolution::To(t, c) {
                        let k = choose|k: int| 0 <= k < before.len() && #[trigger] before[k] == Resolution::To(t, c);
                        assert(res[k] == before[k]);
                    }
                    if rv == Resolution::To(t, c) {
                        assert(res[before.len() as int] == rv);
                    }
                }
            }
            match r {
                Resolved::To(link) => {
                    if crate::text::same(link.target.as_str(), op.callsign.as_str()) {
                        recursive = true;
                        proof {
                            assert forall|t: Seq<char>| #[trigger] best.has(t) implies best.value_of(t) == grade_of(res, t) by {
                                assert(t != op.callsign@);
                                assert(grade_of(res, t) == grade_of(before, t));
                            }
                        }
                    } else {
                        let ghost tv = link.target@;
                        let ghost cv = link.confidence;
                        let prior = match best.get(link.target.as_str()) {
                            Some(c) => Some(*c),
                            None => None,
                        };
                        let grade = match prior {
                            Some(Confidence::Confirmed) => Confidence::Confirmed,
                            _ => link.confidence,
                        };
                        best.insert(link.target, grade);
                        proof {
                            lemma_insert_lookup(bbest, best, tv, grade);
                            assert(grade == grade_of(res, tv));
                            assert forall|t: Seq<char>| #[trigger] best.has(t) implies best.value_of(t) == grade_of(res, t) by {
                                if t != tv {
                                    assert(grade_of(res, t) == grade_of(before, t));
                                }
                            }
                        }
                    }
                },
                Resolved::Inside => {
                    proof {
                        assert forall|t: Seq<char>| #[trigger] best.has(t) implies best.value_of(t) == grade_of(res, t) by {
                            assert(grade_of(res, t) == grade_of(before, t));
                        }
                    }
                },
                Resolved::Away => {
                    external = external + 1;
                    proof {
                        assert forall|t: Seq<char>| #[trigger] best.has(t) implies best.value_of(t) == grade_of(res, t) by {
                            assert(grade_of(res, t) == grade_of(before, t));
                        }
                    }
                },
            }
            i = i + 1;
        }
        let mut links: Vec<Link> = Vec::new();
        let n = best.len();
        let mut k: usize = 0;
        while k < n
            invariant
                best.inv(),
                n == best.key_list().len(),
                k <= n,
                link_targets(link_views(links@)) == best.key_list().take(k as int),
                forall|j: int| 0 <= j < k ==> (#[trigger] link_views(links@)[j]).1 == best.value_list()[j],
            decreases n - k,
        {
            let ghost before = links@;
            let link = Link { target: best.key_at(k).clone(), confidence: *best.value_at(k) };
            links.push(link);
            assert(link_views(links@) =~= link_views(before).push((best.key_list()[k as int], best.value_list()[k as int])));
            assert(best.key_list().take(k + 1) =~= best.key_list().take(k as int).push(best.key_list()[k as int]));
            assert(link_targets(link_views(links@)) =~= link_targets(link_views(before)).push(best.key_list()[k as int]));
            k = k + 1;
        }
        let w = Operation {
            callsign: op.callsign.clone(),
            name: op.name.clone(),
            module: op.module.clone(),
            owner: copy_opt(&op.owner),
            file: op.file.clone(),
            line: op.line,
            params: copy_names(&op.params),
            decorators: copy_names(&op.decorators),
            is_async: op.is_async,
            raw_calls: copy_names(&op.raw_calls),
            links,
            external,
            recursive,
        };
        proof {
            assert(best.key_list().take(n as int) =~= best.key_list());
            let lv = link_views(w.links@);
            assert(link_targets(lv) == best.key_list());
            assert forall|t: Seq<char>| #[trigger] link_targets(lv).contains(t) <==> (t != op.callsign@ && resolves_to(res, t)) by {
                assert(best.has(t) <==> best.key_list().contains(t));
            }
            assert forall|j: int| 0 <= j < lv.len() implies (#[trigger] lv[j]).1 == grade_of(res, lv[j].0) by {
                assert(link_targets(lv)[j] == lv[j].0);
                best.lemma_index_of(j);
                assert(best.has(best.key_list()[j]));
            }
            assert(wired(op@, res, w@));
        }
        w
    }

    /// Turn the raw call text collected during interception into resolved links.
    /// Must run after every file in the snapshot has been read.
    pub fn wire(&mut self)
        ensures
            wiring_of(*old(self), *final(self)),
    {
        proof {
            use_type_invariant(&self.operations);
        }
        // Index of bare function name -> callsigns, for unambiguous-name matching.
        let by_name = index_by_name(&self.operations);
        let ghost keys = self.operations.key_list();
        let ghost vals = self.operations.value_list();
        let mut wired_ops: StrMap<Operation> = StrMap::new();
        let n = self.operations.len();
        let mut j: usize = 0;
        while j < n
            invariant
                keys == self.operations.key_list(),
                vals == self.operations.value_list(),
                self.operations.inv(),
                name_index_ok(self.operations, by_name),
                n == keys.len(),
                j <= n,
                wired_ops.key_list() == keys.take(j as int),
                wired_ops.value_list().len() == j,
                forall|p: int| 0 <= p < j ==> wired_in(*self, #[trigger] vals[p]@, wired_ops.value_list()[p]@),
            decreases n - j,
        {
            let w = self.wire_one(self.operations.value_at(j), &by_name);
            let key = self.operations.key_at(j).clone();
            let ghost before = wired_ops.value_list();
            proof {
                assert forall|p: int| 0 <= p < wired_ops.key_list().len() implies seq_lt(#[trigger] wired_ops.key_list()[p], key@) by {
                    assert(seq_lt(keys[p], keys[j as int]));
                }
            }
            wired_ops.push_last(key, w);
            proof {
                assert(keys.take(j + 1) =~= keys.take(j as int).push(keys[j as int]));
                assert forall|p: int| 0 <= p < j + 1 implies wired_in(*self, #[trigger] vals[p]@, wired_ops.value_list()[p]@) by {
                    if p < j {
                        assert(wired_ops.value_list()[p] == before[p]);
                    }
                }
            }
            j = j + 1;
        }
        proof {
            assert(keys.take(n as int) =~= keys);
        }
        self.operations = wired_ops;
    }

    /// The inherited method this operation overrides, if any: the first
    /// in-package base through which a method of the same name is reached.
    pub fn overridden(&self, op: &Operation) -> (r: Option<String>)
        ensures
            op.owner is None ==> r is None,
            op@.owner matches Some(owner) ==> exists|res: Resolution|
                #[trigger] super_ok(*self, bases_of(self.subjects, owner), 0, op.name@, res) && opt_view(r) == match res {
                    Resolution::To(hit, _) => Some(hit),
                    _ => None,
                },
    {
        let found = self.trace_super(op, op.name.as_str());
        match found {
            Resolved::To(link) => Some(link.target),
            _ => None,
        }
    }
}

/// Along a lineage that starts inside a set closed under taking bases, every
/// class is inside the set.
proof fn lemma_lineage_seen(subjects: StrMap<Subject>, p: Seq<Seq<char>>, seen: Seq<Seq<char>>, n: int)
    requires
        is_lineage(subjects, p),
        0 <= n < p.len(),
        seen.contains(p[0]),
        forall|x: Seq<char>, b: Seq<char>| #[trigger] seen.contains(x) && #[trigger] bases_of(subjects, x).contains(b) ==> seen.contains(b),
    ensures
        seen.contains(p[n]),
    decreases n,
{
    if n > 0 {
        lemma_lineage_seen(subjects, p, seen, n - 1);
        let i = n - 1;
        assert(bases_of(subjects, p[i]).contains(p[i + 1]));
    }
}

} // verus!
