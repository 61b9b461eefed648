//! Interception: raw Python source in, structured observations out. Parsing is
//! done by tree-sitter; its tree is lifted into plain `Syntax` nodes, and every
//! rule that reads definitions, bases, parameters, calls and imports off that
//! tree is ordinary verified code over `Syntax`.

use vstd::prelude::*;
use vstd::string::StringExecFns;

use crate::dossier::{Binding, Operation, Subject};

verus! {

// ------------------------------------------------------------- tree-sitter --

#[verifier::external_type_specification]
#[verifier::external_body]
pub struct ExParser(tree_sitter::Parser);

#[verifier::external_type_specification]
#[verifier::external_body]
pub struct ExLanguageError(tree_sitter::LanguageError);

/// `tree_sitter::Parser::new`: a parser with no language yet. The parser is
/// opaque here, so nothing is claimed of it.
#[verifier::external_body]
fn new_parser() -> tree_sitter::Parser {
    tree_sitter::Parser::new()
}

/// `tree_sitter::Parser::set_language` with tree-sitter-python's grammar
/// (`Language::new(tree_sitter_python::LANGUAGE)`): it succeeds.
/// `set_language` refuses a grammar only when its ABI version falls outside
/// the range this tree-sitter loads (13 to 15), when the grammar has no lexer,
/// or, with the `wasm` feature alone, when a wasm grammar fails to load. The
/// Python grammar is ABI version 15, sets a lexer and is native code, and the
/// `wasm` feature is off.
#[verifier::external_body]
fn load_python(parser: &mut tree_sitter::Parser) -> (r: Result<(), tree_sitter::LanguageError>)
    ensures
        r is Ok,
{
    parser.set_language(&tree_sitter::Language::new(tree_sitter_python::LANGUAGE))
}

// ------------------------------------------------------------- the parse --

/// One node of the parse, in plain values, as tree-sitter reports it.
pub struct RawNode {
    /// `Node::kind`.
    pub kind: String,
    /// `TreeCursor::field_name`: the field under which the parent holds it.
    pub field: Option<String>,
    /// `Node::is_named`.
    pub named: bool,
    /// The 0-indexed row of `Node::start_position`.
    pub row: usize,
    /// The source text between `Node::start_byte` and `Node::end_byte`, or
    /// empty when that range does not cut the source at character boundaries.
    pub text: String,
    /// `TreeCursor::depth`: how far below the root the node sits.
    pub depth: u32,
}

pub struct RawNodeView {
    pub kind: Seq<char>,
    pub field: Option<Seq<char>>,
    pub named: bool,
    pub row: usize,
    pub text: Seq<char>,
    pub depth: u32,
}

impl View for RawNode {
    type V = RawNodeView;

    open spec fn view(&self) -> RawNodeView {
        RawNodeView {
            kind: self.kind@,
            field: crate::dossier::opt_view(self.field),
            named: self.named,
            row: self.row,
            text: self.text@,
            depth: self.depth,
        }
    }
}

pub open spec fn raw_views(v: Seq<RawNode>) -> Seq<RawNodeView> {
    v.map_values(|n: RawNode| n@)
}

pub open spec fn opt_raw_views(v: Option<Vec<RawNode>>) -> Option<Seq<RawNodeView>> {
    match v {
        Some(v) => Some(raw_views(v@)),
        None => None,
    }
}

/// The nodes tree-sitter's Python grammar parses `source` into, root first
/// and in pre-order, or none when the parser hands back no tree. A function
/// of the source alone: the grammar is fixed and no earlier tree is reused.
pub uninterp spec fn python_nodes(source: Seq<char>) -> Option<Seq<RawNodeView>>;

/// `tree_sitter::Parser::parse` on the whole source with no earlier tree, then
/// every node of the tree in pre-order (`Tree::walk`, `TreeCursor::goto_descendant`
/// over `Node::descendant_count`), each read into plain values. The text is
/// cut with `str::get`, which gives nothing rather than panicking when a range
/// does not fit the source. An `Interceptor` only ever holds a parser loaded
/// with the Python grammar, so the result is the Python parse of `source`.
#[verifier::external_body]
fn parse_nodes(interceptor: &mut Interceptor, source: &str) -> (r: Option<Vec<RawNode>>)
    ensures
        opt_raw_views(r) == python_nodes(source@),
{
    let tree = interceptor.parser.parse(source, None)?;
    let mut cursor = tree.walk();
    let mut nodes = Vec::new();
    for i in 0..cursor.node().descendant_count() {
        cursor.goto_descendant(i);
        let (node, field) = (cursor.node(), cursor.field_name().map(String::from));
        let text = source.get(node.byte_range()).unwrap_or_default().to_string();
        let (kind, named, row) = (node.kind().to_string(), node.is_named(), node.start_position().row);
        nodes.push(RawNode { kind, field, named, row, text, depth: cursor.depth() });
    }
    Some(nodes)
}

// ------------------------------------------------------------- plain tree --

/// One node of a parsed source file, holding what the rules read off it.
#[derive(Debug)]
pub struct Syntax {
    /// The grammar's name for the node, e.g. `class_definition`.
    pub kind: String,
    /// The field under which the parent holds this node, e.g. `name`.
    pub field: Option<String>,
    /// Whether the grammar names this node (punctuation is anonymous).
    pub named: bool,
    /// 1-indexed line the node starts on.
    pub line: usize,
    /// The source text the node spans.
    pub text: String,
    pub children: Vec<Syntax>,
}

/// The 1-indexed line of a 0-indexed row.
pub open spec fn line_of(row: usize) -> usize {
    if row < usize::MAX {
        (row + 1) as usize
    } else {
        row
    }
}

/// `n` holds what the raw node `v` reports.
pub open spec fn holds_raw(n: Syntax, v: RawNodeView) -> bool {
    &&& n.kind@ == v.kind
    &&& crate::dossier::opt_view(n.field) == v.field
    &&& n.named == v.named
    &&& n.line == line_of(v.row)
    &&& n.text@ == v.text
}

/// The node at `from` is a child of a node at depth `d`: it sits one level
/// deeper, so the listing goes on with that node's children.
pub open spec fn continues(ns: Seq<RawNodeView>, from: int, d: u32) -> bool {
    0 <= from < ns.len() && d < u32::MAX && ns[from].depth == d + 1
}

/// How many nodes `n` and everything below it hold.
pub open spec fn size(n: Syntax) -> int
    decreases n, 1int, 0int,
{
    1 + size_kids(n, 0)
}

pub open spec fn size_kids(n: Syntax, i: int) -> int
    decreases n, 0int, n.children@.len() - i,
{
    if i < 0 || i >= n.children@.len() {
        0
    } else {
        size(n.children@[i]) + size_kids(n, i + 1)
    }
}

/// `n` is the subtree rooted at position `at` of the pre-order listing `ns`:
/// it holds what that node reports, and its children are the nodes one level
/// deeper that follow it, each with its own subtree, up to the first node
/// that is not one level deeper.
pub open spec fn built(n: Syntax, ns: Seq<RawNodeView>, at: int) -> bool
    decreases n, 1int, 0int,
{
    &&& 0 <= at < ns.len()
    &&& holds_raw(n, ns[at])
    &&& built_kids(n, 0, ns, at + 1, ns[at].depth)
}

/// The children of `n` from position `i` on are the subtrees that start at
/// `from` for a parent at depth `d`, one after the other.
pub open spec fn built_kids(n: Syntax, i: int, ns: Seq<RawNodeView>, from: int, d: u32) -> bool
    decreases n, 0int, n.children@.len() - i,
{
    if i < 0 || i >= n.children@.len() {
        !continues(ns, from, d)
    } else {
        &&& continues(ns, from, d)
        &&& built(n.children@[i], ns, from)
        &&& built_kids(n, i + 1, ns, from + size(n.children@[i]), d)
    }
}

proof fn lemma_built_kids(n: Syntax, i: int, ns: Seq<RawNodeView>, bounds: Seq<int>, d: u32)
    requires
        0 <= i <= n.children@.len(),
        bounds.len() == n.children@.len() + 1,
        forall|j: int| i <= j < n.children@.len() ==> built(#[trigger] n.children@[j], ns, bounds[j]),
        forall|j: int| i <= j < n.children@.len() ==> bounds[j + 1] == bounds[j] + size(#[trigger] n.children@[j]),
        forall|j: int| i <= j < n.children@.len() ==> #[trigger] continues(ns, bounds[j], d),
        !continues(ns, bounds[n.children@.len() as int], d),
    ensures
        built_kids(n, i, ns, bounds[i], d),
        size_kids(n, i) == bounds[n.children@.len() as int] - bounds[i],
    decreases n.children@.len() - i,
{
    if i < n.children@.len() {
        lemma_built_kids(n, i + 1, ns, bounds, d);
        assert(built(n.children@[i], ns, bounds[i]));
        assert(bounds[i + 1] == bounds[i] + size(n.children@[i]));
        assert(continues(ns, bounds[i], d));
    }
}

/// Rebuild the subtree whose root is `nodes[at]`: its children are the nodes
/// one level deeper that follow it, up to the first that is not. Returns the
/// subtree and the position just past it.
fn assemble(nodes: &Vec<RawNode>, at: usize) -> (r: (Syntax, usize))
    requires
        at < nodes.len(),
    ensures
        at < r.1 <= nodes.len(),
        built(r.0, raw_views(nodes@), at as int),
        r.1 == at + size(r.0),
    decreases nodes.len() - at,
{
    let ghost ns = raw_views(nodes@);
    let rec = &nodes[at];
    let mut children: Vec<Syntax> = Vec::new();
    let mut next = at + 1;
    let ghost mut bounds: Seq<int> = seq![next as int];
    while next < nodes.len() && rec.depth < u32::MAX && nodes[next].depth == rec.depth + 1
        invariant
            ns == raw_views(nodes@),
            at < next <= nodes.len(),
            rec == &nodes[at as int],
            bounds.len() == children.len() + 1,
            bounds[0] == at + 1,
            bounds[children.len() as int] == next,
            forall|j: int| 0 <= j < children.len() ==> built(#[trigger] children@[j], ns, bounds[j]),
            forall|j: int| 0 <= j < children.len() ==> bounds[j + 1] == bounds[j] + size(#[trigger] children@[j]),
            forall|j: int| 0 <= j < children.len() ==> #[trigger] continues(ns, bounds[j], rec.depth),
        decreases nodes.len() - next,
    {
        proof {
            assert(ns[next as int] == nodes@[next as int]@);
            assert(continues(ns, next as int, rec.depth));
        }
        let (child, after) = assemble(nodes, next);
        let ghost before = children@;
        children.push(child);
        proof {
            let old_bounds = bounds;
            bounds = bounds.push(after as int);
            assert forall|j: int| 0 <= j < children.len() implies built(#[trigger] children@[j], ns, bounds[j]) by {
                if j < before.len() {
                    assert(children@[j] == before[j]);
                    assert(bounds[j] == old_bounds[j]);
                }
            }
            assert forall|j: int| 0 <= j < children.len() implies bounds[j + 1] == bounds[j] + size(#[trigger] children@[j]) by {
                if j < before.len() {
                    assert(children@[j] == before[j]);
                    assert(bounds[j] == old_bounds[j] && bounds[j + 1] == old_bounds[j + 1]);
                }
            }
            assert forall|j: int| 0 <= j < children.len() implies #[trigger] continues(ns, bounds[j], rec.depth) by {
                if j < before.len() {
                    assert(bounds[j] == old_bounds[j]);
                }
            }
        }
        next = after;
    }
    let node = Syntax {
        kind: rec.kind.clone(),
        field: crate::dossier::copy_opt(&rec.field),
        named: rec.named,
        line: rec.row.saturating_add(1),
        text: rec.text.clone(),
        children,
    };
    proof {
        assert(ns[at as int] == nodes@[at as int]@);
        assert(node.children@ == children@);
        if next < nodes.len() {
            assert(ns[next as int] == nodes@[next as int]@);
        }
        assert(!continues(ns, next as int, rec.depth));
        lemma_built_kids(node, 0, ns, bounds, rec.depth);
    }
    (node, next)
}

/// `root` is the tree `python_nodes` gives for `source`, as `Syntax`: the
/// subtree built from the listing's first node on.
pub open spec fn parsed_as(source: Seq<char>, root: Syntax) -> bool {
    exists|ns: Seq<RawNodeView>| python_nodes(source) == Some(ns) && #[trigger] built(root, ns, 0)
}

/// Parse Python source with tree-sitter and lift the tree into `Syntax`:
/// `None` exactly when tree-sitter handed back no tree, or one without nodes.
fn parse_python(interceptor: &mut Interceptor, source: &str) -> (r: Option<Syntax>)
    ensures
        match r {
            Some(root) => parsed_as(source@, root),
            None => python_nodes(source@) matches Some(ns) ==> ns.len() == 0,
        },
{
    let nodes = match parse_nodes(interceptor, source) {
        Some(nodes) => nodes,
        None => return None,
    };
    if nodes.len() == 0 {
        return None;
    }
    let ghost ns = raw_views(nodes@);
    proof {
        assert(python_nodes(source@) == Some(ns));
    }
    let (root, _) = assemble(&nodes, 0);
    proof {
        assert(built(root, ns, 0));
    }
    Some(root)
}

// ------------------------------------------------------------ node access --

/// Whether `c` is held under the field `f`.
pub open spec fn field_is(c: Syntax, f: Seq<char>) -> bool {
    c.field matches Some(x) && x@ == f
}

/// Index of the first of `kids`, from `i` on, held under field `f`.
pub open spec fn field_index_from(kids: Seq<Syntax>, f: Seq<char>, i: int) -> Option<int>
    decreases kids.len() - i,
{
    if i < 0 || i >= kids.len() {
        None
    } else if field_is(kids[i], f) {
        Some(i)
    } else {
        field_index_from(kids, f, i + 1)
    }
}

pub proof fn lemma_field_index_from(kids: Seq<Syntax>, f: Seq<char>, i: int)
    ensures
        field_index_from(kids, f, i) matches Some(j) ==> i <= j < kids.len() && 0 <= j && field_is(kids[j], f),
    decreases kids.len() - i,
{
    if 0 <= i < kids.len() && !field_is(kids[i], f) {
        lemma_field_index_from(kids, f, i + 1);
    }
}

/// Index of the first child of `n` held under field `f`.
pub open spec fn field_index(n: Syntax, f: Seq<char>) -> Option<int> {
    field_index_from(n.children@, f, 0)
}

/// The text of the first child of `n` held under field `f`.
pub open spec fn field_text(n: Syntax, f: Seq<char>) -> Option<Seq<char>> {
    match field_index(n, f) {
        Some(j) => Some(n.children@[j].text@),
        None => None,
    }
}

/// Find the first child of `n` held under the field `f`.
fn field_index_of(n: &Syntax, f: &str) -> (r: Option<usize>)
    ensures
        match r {
            Some(j) => field_index(*n, f@) == Some(j as int) && j < n.children@.len(),
            None => field_index(*n, f@) is None,
        },
{
    let mut i: usize = 0;
    proof {
        lemma_field_index_from(n.children@, f@, 0);
    }
    while i < n.children.len()
        invariant
            i <= n.children.len(),
            field_index(*n, f@) == field_index_from(n.children@, f@, i as int),
        decreases n.children.len() - i,
    {
        let c = &n.children[i];
        let hit = match &c.field {
            Some(x) => crate::text::same(x.as_str(), f),
            None => false,
        };
        if hit {
            return Some(i);
        }
        i = i + 1;
    }
    None
}

/// The text of the first child held under field `f`.
fn field_text_of(n: &Syntax, f: &str) -> (r: Option<String>)
    ensures
        crate::dossier::opt_view(r) == field_text(*n, f@),
{
    match field_index_of(n, f) {
        Some(j) => Some(n.children[j].text.clone()),
        None => None,
    }
}

/// Index of the first named child of `kids`, from `i` on.
pub open spec fn first_named_from(kids: Seq<Syntax>, i: int) -> Option<int>
    decreases kids.len() - i,
{
    if i < 0 || i >= kids.len() {
        None
    } else if kids[i].named {
        Some(i)
    } else {
        first_named_from(kids, i + 1)
    }
}

/// The text of the first named child, or the node's own text.
pub open spec fn spec_child_text(n: Syntax) -> Seq<char> {
    match first_named_from(n.children@, 0) {
        Some(j) => n.children@[j].text@,
        None => n.text@,
    }
}

fn child_text(n: &Syntax) -> (r: String)
    ensures
        r@ == spec_child_text(*n),
{
    let mut i: usize = 0;
    while i < n.children.len()
        invariant
            i <= n.children.len(),
            first_named_from(n.children@, 0) == first_named_from(n.children@, i as int),
        decreases n.children.len() - i,
    {
        if n.children[i].named {
            return n.children[i].text.clone();
        }
        i = i + 1;
    }
    n.text.clone()
}

/// Whether `s` is the literal `lit`.
fn kind_is(s: &String, lit: &str) -> (r: bool)
    ensures
        r == (s@ == lit@),
{
    crate::text::same(s.as_str(), lit)
}

// ----------------------------------------------------------------- bases --

/// What one argument of a class's base list contributes: plain names and
/// attribute chains as written, the generic behind a subscript, the callee of
/// a dynamic base; nothing for keywords and splats.
pub open spec fn base_item(arg: Syntax) -> Option<Seq<char>> {
    if !arg.named {
        None
    } else if arg.kind@ == "identifier"@ || arg.kind@ == "attribute"@ {
        Some(arg.text@)
    } else if arg.kind@ == "subscript"@ {
        field_text(arg, "value"@)
    } else if arg.kind@ == "call"@ {
        field_text(arg, "function"@)
    } else {
        None
    }
}

/// Base classes read off the first `n` arguments of a base list.
pub open spec fn bases_upto(kids: Seq<Syntax>, n: int) -> Seq<Seq<char>>
    decreases n,
{
    if n <= 0 || n > kids.len() {
        Seq::empty()
    } else {
        let prev = bases_upto(kids, n - 1);
        match base_item(kids[n - 1]) {
            Some(b) => prev.push(b),
            None => prev,
        }
    }
}

/// Pull base classes out of the argument list, dropping the parts that do not
/// describe inheritance: `metaclass=`, `**kwargs`, generic subscripts.
fn bases_of(list: &Syntax) -> (r: Vec<String>)
    ensures
        crate::sitrep::names(r@) == bases_upto(list.children@, list.children@.len() as int),
{
    let mut r: Vec<String> = Vec::new();
    let mut i: usize = 0;
    while i < list.children.len()
        invariant
            i <= list.children.len(),
            crate::sitrep::names(r@) == bases_upto(list.children@, i as int),
        decreases list.children.len() - i,
    {
        let arg = &list.children[i];
        let ghost before = r@;
        let item = if !arg.named {
            None
        } else if kind_is(&arg.kind, "identifier") || kind_is(&arg.kind, "attribute") {
            Some(arg.text.clone())
        } else if kind_is(&arg.kind, "subscript") {
            field_text_of(arg, "value")
        } else if kind_is(&arg.kind, "call") {
            field_text_of(arg, "function")
        } else {
            None
        };
        assert(crate::dossier::opt_view(item) == base_item(list.children@[i as int]));
        if let Some(b) = item {
            r.push(b);
            assert(crate::sitrep::names(r@) =~= crate::sitrep::names(before).push(b@));
        }
        i = i + 1;
    }
    r
}

// ------------------------------------------------------------ decorators --

/// `s` without its leading `@` signs.
pub open spec fn trim_at(s: Seq<char>) -> Seq<char>
    decreases s.len(),
{
    if s.len() > 0 && s[0] == '@' {
        trim_at(s.drop_first())
    } else {
        s
    }
}

fn trim_at_signs(s: &String) -> (r: String)
    ensures
        r@ == trim_at(s@),
{
    let cs = crate::text::chars_of(s.as_str());
    let mut i: usize = 0;
    assert(cs@.skip(0) =~= cs@);
    while i < cs.len() && cs[i] == '@'
        invariant
            i <= cs.len(),
            trim_at(cs@) == trim_at(cs@.skip(i as int)),
        decreases cs.len() - i,
    {
        assert(cs@.skip(i as int).drop_first() =~= cs@.skip(i + 1));
        i = i + 1;
    }
    let r = crate::text::string_of_range(&cs, i, cs.len());
    assert(r@ =~= cs@.skip(i as int));
    r
}

/// Decorators read off the first `n` children of a decorated definition.
pub open spec fn decorators_upto(kids: Seq<Syntax>, n: int) -> Seq<Seq<char>>
    decreases n,
{
    if n <= 0 || n > kids.len() {
        Seq::empty()
    } else {
        let prev = decorators_upto(kids, n - 1);
        let c = kids[n - 1];
        if c.named && c.kind@ == "decorator"@ {
            prev.push(trim_at(c.text@))
        } else {
            prev
        }
    }
}

pub open spec fn spec_decorators(node: Syntax) -> Seq<Seq<char>> {
    decorators_upto(node.children@, node.children@.len() as int)
}

fn decorators_of(node: &Syntax) -> (r: Vec<String>)
    ensures
        crate::sitrep::names(r@) == spec_decorators(*node),
{
    let mut r: Vec<String> = Vec::new();
    let mut i: usize = 0;
    while i < node.children.len()
        invariant
            i <= node.children.len(),
            crate::sitrep::names(r@) == decorators_upto(node.children@, i as int),
        decreases node.children.len() - i,
    {
        let c = &node.children[i];
        if c.named && kind_is(&c.kind, "decorator") {
            let ghost before = r@;
            let t = trim_at_signs(&c.text);
            r.push(t);
            assert(crate::sitrep::names(r@) =~= crate::sitrep::names(before).push(t@));
        }
        i = i + 1;
    }
    r
}

// ------------------------------------------------------------- parameters --

/// How one parameter reads in a signature: its name, with `*` or `**` kept;
/// annotations and defaults dropped.
pub open spec fn param_item(p: Syntax) -> Option<Seq<char>> {
    if !p.named || p.kind@ == "comment"@ {
        None
    } else if p.kind@ == "identifier"@ {
        Some(p.text@)
    } else if p.kind@ == "list_splat_pattern"@ {
        Some(seq!['*'] + spec_child_text(p))
    } else if p.kind@ == "dictionary_splat_pattern"@ {
        Some(seq!['*', '*'] + spec_child_text(p))
    } else {
        match field_text(p, "name"@) {
            Some(t) => Some(t),
            None => Some(spec_child_text(p)),
        }
    }
}

pub open spec fn params_upto(kids: Seq<Syntax>, n: int) -> Seq<Seq<char>>
    decreases n,
{
    if n <= 0 || n > kids.len() {
        Seq::empty()
    } else {
        let prev = params_upto(kids, n - 1);
        match param_item(kids[n - 1]) {
            Some(t) => prev.push(t),
            None => prev,
        }
    }
}

/// The parameter names of a function definition, in order.
pub open spec fn spec_params(node: Syntax) -> Seq<Seq<char>> {
    match field_index(node, "parameters"@) {
        Some(j) => params_upto(node.children@[j].children@, node.children@[j].children@.len() as int),
        None => Seq::empty(),
    }
}

fn params_of(node: &Syntax) -> (r: Vec<String>)
    ensures
        crate::sitrep::names(r@) == spec_params(*node),
{
    let mut r: Vec<String> = Vec::new();
    let params = match field_index_of(node, "parameters") {
        Some(j) => &node.children[j],
        None => {
            assert(crate::sitrep::names(r@) =~= Seq::<Seq<char>>::empty());
            return r;
        },
    };
    let mut i: usize = 0;
    while i < params.children.len()
        invariant
            i <= params.children.len(),
            crate::sitrep::names(r@) == params_upto(params.children@, i as int),
        decreases params.children.len() - i,
    {
        let p = &params.children[i];
        let item = if !p.named || kind_is(&p.kind, "comment") {
            None
        } else if kind_is(&p.kind, "identifier") {
            Some(p.text.clone())
        } else if kind_is(&p.kind, "list_splat_pattern") {
            let mut t = String::new();
            t.push('*');
            let inner = child_text(p);
            let t = crate::text::joined(t.as_str(), inner.as_str());
            assert(t@ =~= seq!['*'] + spec_child_text(*p));
            Some(t)
        } else if kind_is(&p.kind, "dictionary_splat_pattern") {
            let mut t = String::new();
            t.push('*');
            t.push('*');
            let inner = child_text(p);
            let t = crate::text::joined(t.as_str(), inner.as_str());
            assert(t@ =~= seq!['*', '*'] + spec_child_text(*p));
            Some(t)
        } else {
            match field_text_of(p, "name") {
                Some(t) => Some(t),
                None => Some(child_text(p)),
            }
        };
        assert(crate::dossier::opt_view(item) == param_item(params.children@[i as int]));
        let ghost before = r@;
        if let Some(t) = item {
            r.push(t);
            assert(crate::sitrep::names(r@) =~= crate::sitrep::names(before).push(t@));
        }
        i = i + 1;
    }
    r
}

// ----------------------------------------------------------------- modules --

/// `pkg.sub.mod` -> `pkg.sub`; a name with no dot is its own parent.
pub open spec fn spec_parent_module(m: Seq<char>) -> Seq<char> {
    let k = crate::text::after_last(m, '.', m.len() as int);
    if k == 0 {
        m
    } else {
        m.subrange(0, k - 1)
    }
}

/// `pkg.sub.mod` -> `pkg.sub`.
pub fn parent_module(module: &str) -> (r: String)
    ensures
        r@ == spec_parent_module(module@),
{
    let cs = crate::text::chars_of(module);
    let k = crate::text::find_after_last(&cs, '.');
    proof {
        crate::text::lemma_after_last_bounds(cs@, '.', cs.len() as int);
    }
    if k == 0 {
        crate::text::owned(module)
    } else {
        crate::text::string_of_range(&cs, 0, k - 1)
    }
}

/// Non-empty dot-separated segments of `s[..n]`, and the segment in progress.
pub open spec fn segments_upto(s: Seq<char>, n: int) -> (Seq<Seq<char>>, Seq<char>)
    decreases n,
{
    if n <= 0 || n > s.len() {
        (Seq::empty(), Seq::empty())
    } else {
        let (done, cur) = segments_upto(s, n - 1);
        if s[n - 1] == '.' {
            (if cur.len() > 0 { done.push(cur) } else { done }, Seq::empty())
        } else {
            (done, cur.push(s[n - 1]))
        }
    }
}

/// The non-empty segments of a dotted path.
pub open spec fn segments(s: Seq<char>) -> Seq<Seq<char>> {
    let (done, cur) = segments_upto(s, s.len() as int);
    if cur.len() > 0 {
        done.push(cur)
    } else {
        done
    }
}

fn segments_of(s: &str) -> (r: Vec<String>)
    ensures
        crate::sitrep::names(r@) == segments(s@),
{
    let cs = crate::text::chars_of(s);
    let mut done: Vec<String> = Vec::new();
    let mut cur: Vec<char> = Vec::new();
    let mut i: usize = 0;
    while i < cs.len()
        invariant
            cs@ == s@,
            i <= cs.len(),
            (crate::sitrep::names(done@), cur@) == segments_upto(cs@, i as int),
        decreases cs.len() - i,
    {
        if cs[i] == '.' {
            if cur.len() > 0 {
                let ghost before = done@;
                let seg = crate::text::string_of(&cur);
                done.push(seg);
                assert(crate::sitrep::names(done@) =~= crate::sitrep::names(before).push(cur@));
            }
            cur = Vec::new();
        } else {
            cur.push(cs[i]);
        }
        i = i + 1;
    }
    if cur.len() > 0 {
        let ghost before = done@;
        let seg = crate::text::string_of(&cur);
        done.push(seg);
        assert(crate::sitrep::names(done@) =~= crate::sitrep::names(before).push(cur@));
    }
    done
}

/// Leading dots of `s` from position `i` on.
pub open spec fn leading_dots(s: Seq<char>, i: int) -> int
    decreases s.len() - i,
{
    if 0 <= i < s.len() && s[i] == '.' {
        leading_dots(s, i + 1)
    } else {
        i
    }
}

/// The dotted path a `from ...` clause points at: the module as written, or,
/// for a relative import, the package climbed one level per extra dot with
/// the rest of the clause appended. `None` when the climb leaves the package.
pub open spec fn spec_import_base(node: Syntax, package: Seq<char>) -> Option<Seq<char>> {
    if node.kind@ != "relative_import"@ {
        Some(node.text@)
    } else {
        let raw = node.text@;
        let dots = leading_dots(raw, 0);
        let tail = raw.skip(dots);
        let segs = segments(package);
        let up = if dots >= 1 { dots - 1 } else { 0 };
        if segs.len() <= up {
            None
        } else {
            let base = crate::text::spec_join(segs.take(segs.len() - up), seq!['.']);
            if tail.len() > 0 {
                Some(base + seq!['.'] + tail)
            } else {
                Some(base)
            }
        }
    }
}

fn import_base(node: &Syntax, package: &String) -> (r: Option<String>)
    ensures
        crate::dossier::opt_view(r) == spec_import_base(*node, package@),
{
    if !kind_is(&node.kind, "relative_import") {
        return Some(node.text.clone());
    }
    let raw = crate::text::chars_of(node.text.as_str());
    let mut dots: usize = 0;
    assert(leading_dots(raw@, 0) == leading_dots(raw@, dots as int));
    while dots < raw.len() && raw[dots] == '.'
        invariant
            dots <= raw.len(),
            leading_dots(raw@, 0) == leading_dots(raw@, dots as int),
        decreases raw.len() - dots,
    {
        dots = dots + 1;
    }
    let tail = crate::text::string_of_range(&raw, dots, raw.len());
    assert(tail@ =~= raw@.skip(dots as int));
    let mut segs = segments_of(package.as_str());
    let up = if dots >= 1 { dots - 1 } else { 0 };
    if segs.len() <= up {
        return None;
    }
    let keep = segs.len() - up;
    let ghost all = crate::sitrep::names(segs@);
    segs.truncate(keep);
    assert(crate::sitrep::names(segs@) =~= all.take(keep as int));
    let mut base = crate::text::join(&segs, ".");
    proof {
        reveal_strlit(".");
        assert("."@ =~= seq!['.']);
    }
    if tail.as_str().is_empty() {
        Some(base)
    } else {
        base.push('.');
        base.append(tail.as_str());
        Some(base)
    }
}

// --------------------------------------------------------------- sorting --

/// Where `x` goes in the sorted `r`, looking from `i` on: before the first
/// name that sorts after it.
pub open spec fn insert_at(r: Seq<Seq<char>>, x: Seq<char>, i: int) -> int
    decreases r.len() - i,
{
    if i < 0 || i >= r.len() {
        r.len() as int
    } else if crate::text::seq_lt(x, r[i]) {
        i
    } else {
        insert_at(r, x, i + 1)
    }
}

pub proof fn lemma_insert_at(r: Seq<Seq<char>>, x: Seq<char>, i: int)
    requires
        0 <= i <= r.len(),
    ensures
        i <= insert_at(r, x, i) <= r.len(),
    decreases r.len() - i,
{
    if i < r.len() && !crate::text::seq_lt(x, r[i]) {
        lemma_insert_at(r, x, i + 1);
    }
}

/// `s` in ascending order, equal names kept in the order they came in.
pub open spec fn sorted_names(s: Seq<Seq<char>>) -> Seq<Seq<char>>
    decreases s.len(),
{
    if s.len() == 0 {
        s
    } else {
        let r = sorted_names(s.drop_last());
        r.insert(insert_at(r, s.last(), 0), s.last())
    }
}

/// Sort a list of names.
fn sort_names(v: Vec<String>) -> (r: Vec<String>)
    ensures
        crate::sitrep::names(r@) == sorted_names(crate::sitrep::names(v@)),
{
    let ghost all = crate::sitrep::names(v@);
    let mut r: Vec<String> = Vec::new();
    let mut i: usize = 0;
    assert(all.take(0) =~= Seq::<Seq<char>>::empty());
    assert(crate::sitrep::names(r@) =~= Seq::<Seq<char>>::empty());
    while i < v.len()
        invariant
            all == crate::sitrep::names(v@),
            i <= v.len(),
            crate::sitrep::names(r@) == sorted_names(all.take(i as int)),
        decreases v.len() - i,
    {
        let x = v[i].clone();
        let ghost rv = crate::sitrep::names(r@);
        let mut j: usize = 0;
        proof {
            lemma_insert_at(rv, x@, 0);
        }
        while j < r.len() && !crate::text::str_lt(x.as_str(), r[j].as_str())
            invariant
                rv == crate::sitrep::names(r@),
                j <= r.len(),
                insert_at(rv, x@, 0) == insert_at(rv, x@, j as int),
            decreases r.len() - j,
        {
            j = j + 1;
        }
        let ghost before = r@;
        r.insert(j, x);
        assert(crate::sitrep::names(r@) =~= rv.insert(j as int, x@));
        assert(all.take(i + 1).drop_last() =~= all.take(i as int));
        assert(all.take(i + 1).last() == x@);
        i = i + 1;
    }
    assert(all.take(i as int) =~= all);
    r
}

// ---------------------------------------------------------------- methods --

/// Methods defined on a class body, from its first `n` children. Methods can
/// sit under `if TYPE_CHECKING:` or `try:` just as easily as at the top of the
/// body; those are descended into, nested definitions never are.
pub open spec fn methods_upto(node: Syntax, n: int) -> Seq<Seq<char>>
    decreases node, 0int, n,
{
    if n <= 0 || n > node.children@.len() {
        Seq::empty()
    } else {
        let prev = methods_upto(node, n - 1);
        let c = node.children@[n - 1];
        if !c.named {
            prev
        } else if c.kind@ == "decorated_definition"@ {
            match field_index(c, "definition"@) {
                Some(j) => {
                    proof {
                        lemma_field_index_from(c.children@, "definition"@, 0);
                        assert(decreases_to!(node => c.children@[j]));
                    }
                    prev + method_item(c.children@[j])
                },
                None => prev,
            }
        } else {
            prev + method_item(c)
        }
    }
}

/// What one definition found in a class body contributes.
pub open spec fn method_item(d: Syntax) -> Seq<Seq<char>>
    decreases d, 1int, 0int,
{
    if d.kind@ == "function_definition"@ {
        match field_text(d, "name"@) {
            Some(t) => seq![t],
            None => Seq::empty(),
        }
    } else if d.kind@ == "class_definition"@ {
        Seq::empty()
    } else {
        methods_upto(d, d.children@.len() as int)
    }
}

fn collect_item(d: &Syntax, out: &mut Vec<String>)
    ensures
        crate::sitrep::names(final(out)@) == crate::sitrep::names(old(out)@) + method_item(*d),
    decreases *d, 1int, 0int,
{
    if kind_is(&d.kind, "function_definition") {
        match field_text_of(d, "name") {
            Some(t) => {
                let ghost before = out@;
                out.push(t);
                assert(crate::sitrep::names(out@) =~= crate::sitrep::names(before) + seq![t@]);
            },
            None => {
                assert(crate::sitrep::names(out@) =~= crate::sitrep::names(out@) + Seq::<Seq<char>>::empty());
            },
        }
    } else if kind_is(&d.kind, "class_definition") {
        assert(crate::sitrep::names(out@) =~= crate::sitrep::names(out@) + Seq::<Seq<char>>::empty());
    } else {
        collect_methods(d, out);
    }
}

fn collect_methods(node: &Syntax, out: &mut Vec<String>)
    ensures
        crate::sitrep::names(final(out)@) == crate::sitrep::names(old(out)@) + methods_upto(
            *node,
            node.children@.len() as int,
        ),
    decreases *node, 0int, node.children@.len() + 1,
{
    let ghost start = crate::sitrep::names(out@);
    let mut i: usize = 0;
    assert(start =~= start + methods_upto(*node, 0));
    while i < node.children.len()
        invariant
            i <= node.children.len(),
            crate::sitrep::names(out@) == start + methods_upto(*node, i as int),
        decreases node.children.len() - i,
    {
        let c = &node.children[i];
        let ghost before = crate::sitrep::names(out@);
        if !c.named {
        } else if kind_is(&c.kind, "decorated_definition") {
            match field_index_of(c, "definition") {
                Some(j) => {
                    proof {
                        assert(decreases_to!(*node => node.children@[i as int].children@[j as int]));
                    }
                    collect_item(&c.children[j], out);
                },
                None => {},
            }
        } else {
            collect_item(c, out);
        }
        assert(crate::sitrep::names(out@) =~= start + methods_upto(*node, i + 1));
        i = i + 1;
    }
}

/// The sorted method names of a class definition.
pub open spec fn spec_methods(class: Syntax) -> Seq<Seq<char>> {
    sorted_names(
        match field_index(class, "body"@) {
            Some(j) => methods_upto(class.children@[j], class.children@[j].children@.len() as int),
            None => Seq::empty(),
        },
    )
}

fn methods_of(class: &Syntax) -> (r: Vec<String>)
    ensures
        crate::sitrep::names(r@) == spec_methods(*class),
{
    let mut found: Vec<String> = Vec::new();
    match field_index_of(class, "body") {
        Some(j) => {
            collect_methods(&class.children[j], &mut found);
            assert(crate::sitrep::names(found@) =~= methods_upto(class.children@[j as int], class.children@[j as int].children@.len() as int));
        },
        None => {
            assert(crate::sitrep::names(found@) =~= Seq::<Seq<char>>::empty());
        },
    }
    sort_names(found)
}

// ------------------------------------------------------------------ calls --

/// Whether a definition nested in a body owns its own calls.
pub open spec fn is_definition(kind: Seq<char>) -> bool {
    kind == "function_definition"@ || kind == "class_definition"@ || kind == "decorated_definition"@
}

/// The call target written in a `call` node: plain names and attribute
/// chains only.
pub open spec fn call_target(c: Syntax) -> Seq<Seq<char>> {
    match field_index(c, "function"@) {
        Some(j) => {
            let t = c.children@[j];
            if t.kind@ == "identifier"@ || t.kind@ == "attribute"@ {
                seq![t.text@]
            } else {
                Seq::empty()
            }
        },
        None => Seq::empty(),
    }
}

/// Calls made directly under the first `n` children of `node`, in source
/// order; nested definitions are skipped, and arguments are searched too.
pub open spec fn calls_upto(node: Syntax, n: int) -> Seq<Seq<char>>
    decreases node, 0int, n,
{
    if n <= 0 || n > node.children@.len() {
        Seq::empty()
    } else {
        let prev = calls_upto(node, n - 1);
        let c = node.children@[n - 1];
        if is_definition(c.kind@) {
            prev
        } else if c.kind@ == "call"@ {
            prev + call_target(c) + calls_all(c)
        } else {
            prev + calls_all(c)
        }
    }
}

pub open spec fn calls_all(node: Syntax) -> Seq<Seq<char>>
    decreases node, 1int, 0int,
{
    calls_upto(node, node.children@.len() as int)
}

fn descend(node: &Syntax, out: &mut Vec<String>)
    ensures
        crate::sitrep::names(final(out)@) == crate::sitrep::names(old(out)@) + calls_all(*node),
    decreases *node, 1int, 0int,
{
    let ghost start = crate::sitrep::names(out@);
    let mut i: usize = 0;
    assert(start =~= start + calls_upto(*node, 0));
    while i < node.children.len()
        invariant
            i <= node.children.len(),
            crate::sitrep::names(out@) == start + calls_upto(*node, i as int),
        decreases node.children.len() - i,
    {
        let c = &node.children[i];
        let ghost before = crate::sitrep::names(out@);
        if kind_is(&c.kind, "function_definition") || kind_is(&c.kind, "class_definition") || kind_is(&c.kind, "decorated_definition") {
        } else if kind_is(&c.kind, "call") {
            match field_index_of(c, "function") {
                Some(j) => {
                    let t = &c.children[j];
                    if kind_is(&t.kind, "identifier") || kind_is(&t.kind, "attribute") {
                        out.push(t.text.clone());
                    }
                },
                None => {},
            }
            assert(crate::sitrep::names(out@) =~= before + call_target(*c));
            // Arguments can contain further calls.
            descend(c, out);
        } else {
            descend(c, out);
        }
        assert(crate::sitrep::names(out@) =~= start + calls_upto(*node, i + 1));
        i = i + 1;
    }
}

/// The first `n` names of `s`, each kept only at its first appearance.
pub open spec fn dedup_upto(s: Seq<Seq<char>>, n: int) -> Seq<Seq<char>>
    decreases n,
{
    if n <= 0 || n > s.len() {
        Seq::empty()
    } else {
        let prev = dedup_upto(s, n - 1);
        if prev.contains(s[n - 1]) {
            prev
        } else {
            prev.push(s[n - 1])
        }
    }
}

/// Every call made directly by a function, in source order, deduplicated.
pub open spec fn spec_calls(function: Syntax) -> Seq<Seq<char>> {
    match field_index(function, "body"@) {
        Some(j) => {
            let found = calls_all(function.children@[j]);
            dedup_upto(found, found.len() as int)
        },
        None => Seq::empty(),
    }
}

fn calls_of(function: &Syntax) -> (r: Vec<String>)
    ensures
        crate::sitrep::names(r@) == spec_calls(*function),
{
    let mut found: Vec<String> = Vec::new();
    let body = match field_index_of(function, "body") {
        Some(j) => &function.children[j],
        None => {
            assert(crate::sitrep::names(found@) =~= Seq::<Seq<char>>::empty());
            return found;
        },
    };
    descend(body, &mut found);
    let ghost fv = crate::sitrep::names(found@);
    assert(fv =~= calls_all(*body));
    let mut seen: crate::strmap::StrMap<()> = crate::strmap::StrMap::new();
    let mut r: Vec<String> = Vec::new();
    let mut i: usize = 0;
    while i < found.len()
        invariant
            fv == crate::sitrep::names(found@),
            i <= found.len(),
            crate::sitrep::names(r@) == dedup_upto(fv, i as int),
            forall|x: Seq<char>| #[trigger] seen.key_list().contains(x) <==> crate::sitrep::names(r@).contains(x),
        decreases found.len() - i,
    {
        let c = &found[i];
        assert(fv[i as int] == c@);
        if !seen.contains_key(c.as_str()) {
            let ghost before = crate::sitrep::names(r@);
            seen.insert(c.clone(), ());
            r.push(c.clone());
            assert(crate::sitrep::names(r@) =~= before.push(c@));
            proof {
                crate::text::lemma_push_contains(before, c@);
            }
        }
        i = i + 1;
    }
    r
}

// ---------------------------------------------------------------- imports --

/// A binding as a pair of views: the local name and the dotted target.
pub open spec fn binding_view(b: Binding) -> (Seq<char>, Seq<char>) {
    (b.local@, b.target@)
}

pub open spec fn bindings_view(v: Seq<Binding>) -> Seq<(Seq<char>, Seq<char>)> {
    v.map_values(|b: Binding| binding_view(b))
}

/// `import a.b as c` binds `c` to `a.b`; nothing else a bare import binds is
/// informative.
pub open spec fn aliased_item(c: Syntax) -> Option<(Seq<char>, Seq<char>)> {
    if c.named && c.kind@ == "aliased_import"@ && field_text(c, "name"@) is Some && field_text(c, "alias"@) is Some {
        Some((field_text(c, "alias"@)->0, field_text(c, "name"@)->0))
    } else {
        None
    }
}

pub open spec fn aliased_upto(kids: Seq<Syntax>, n: int) -> Seq<(Seq<char>, Seq<char>)>
    decreases n,
{
    if n <= 0 || n > kids.len() {
        Seq::empty()
    } else {
        let prev = aliased_upto(kids, n - 1);
        match aliased_item(kids[n - 1]) {
            Some(b) => prev.push(b),
            None => prev,
        }
    }
}

/// In `from <module> import a, b as c`, what one child binds under `base`.
pub open spec fn from_item(c: Syntax, base: Seq<char>) -> Option<(Seq<char>, Seq<char>)> {
    if !c.named {
        None
    } else if c.kind@ == "dotted_name"@ {
        Some((c.text@, crate::text::dotted(base, c.text@)))
    } else if c.kind@ == "aliased_import"@ && field_text(c, "name"@) is Some && field_text(c, "alias"@) is Some {
        Some((field_text(c, "alias"@)->0, crate::text::dotted(base, field_text(c, "name"@)->0)))
    } else {
        None
    }
}

pub open spec fn from_upto(kids: Seq<Syntax>, n: int, skip: int, base: Seq<char>) -> Seq<(Seq<char>, Seq<char>)>
    decreases n,
{
    if n <= 0 || n > kids.len() {
        Seq::empty()
    } else {
        let prev = from_upto(kids, n - 1, skip, base);
        if n - 1 == skip {
            prev
        } else {
            match from_item(kids[n - 1], base) {
                Some(b) => prev.push(b),
                None => prev,
            }
        }
    }
}

/// Names an import statement binds in its module, resolved to dotted paths.
pub open spec fn spec_bindings(node: Syntax, package: Seq<char>) -> Seq<(Seq<char>, Seq<char>)> {
    if node.kind@ == "import_statement"@ {
        aliased_upto(node.children@, node.children@.len() as int)
    } else {
        match field_index(node, "module_name"@) {
            None => Seq::empty(),
            Some(m) => match spec_import_base(node.children@[m], package) {
                None => Seq::empty(),
                Some(base) => from_upto(node.children@, node.children@.len() as int, m, base),
            },
        }
    }
}

/// Names an import statement binds in this module, resolved to dotted paths.
/// Only the forms that let us name a target exactly are recorded; a bare
/// `import a.b.c` binds `a` to itself and tells us nothing new.
fn bindings_of(node: &Syntax, package: &String) -> (r: Vec<Binding>)
    ensures
        bindings_view(r@) == spec_bindings(*node, package@),
{
    let mut out: Vec<Binding> = Vec::new();
    if kind_is(&node.kind, "import_statement") {
        let mut i: usize = 0;
        while i < node.children.len()
            invariant
                i <= node.children.len(),
                bindings_view(out@) == aliased_upto(node.children@, i as int),
            decreases node.children.len() - i,
        {
            let c = &node.children[i];
            if c.named && kind_is(&c.kind, "aliased_import") {
                match (field_text_of(c, "name"), field_text_of(c, "alias")) {
                    (Some(name), Some(alias)) => {
                        let ghost before = out@;
                        out.push(Binding { local: alias, target: name });
                        assert(bindings_view(out@) =~= bindings_view(before).push(binding_view(out@.last())));
                    },
                    _ => {},
                }
            }
            i = i + 1;
        }
        return out;
    }
    // `from <module> import a, b as c`
    let m = match field_index_of(node, "module_name") {
        Some(m) => m,
        None => {
            assert(bindings_view(out@) =~= Seq::<(Seq<char>, Seq<char>)>::empty());
            return out;
        },
    };
    let base = match import_base(&node.children[m], package) {
        Some(base) => base,
        None => {
            assert(bindings_view(out@) =~= Seq::<(Seq<char>, Seq<char>)>::empty());
            return out;
        },
    };
    let mut i: usize = 0;
    assert(bindings_view(out@) =~= Seq::<(Seq<char>, Seq<char>)>::empty());
    while i < node.children.len()
        invariant
            i <= node.children.len(),
            m < node.children.len(),
            bindings_view(out@) == from_upto(node.children@, i as int, m as int, base@),
        decreases node.children.len() - i,
    {
        let c = &node.children[i];
        if i != m && c.named {
            let ghost before = out@;
            if kind_is(&c.kind, "dotted_name") {
                out.push(Binding { local: c.text.clone(), target: crate::text::dot(base.as_str(), c.text.as_str()) });
                assert(bindings_view(out@) =~= bindings_view(before).push(binding_view(out@.last())));
            } else if kind_is(&c.kind, "aliased_import") {
                match (field_text_of(c, "name"), field_text_of(c, "alias")) {
                    (Some(name), Some(alias)) => {
                        out.push(Binding { local: alias, target: crate::text::dot(base.as_str(), name.as_str()) });
                        assert(bindings_view(out@) =~= bindings_view(before).push(binding_view(out@.last())));
                    },
                    _ => {},
                }
            }
        }
        i = i + 1;
    }
    out
}

// ------------------------------------------------------------ definitions --

/// Where in the file the walk is: what names definitions hang off, and which
/// class (if any) owns them.
struct Scope {
    module: String,
    file: String,
    prefix: String,
    owner: Option<String>,
    /// The package a single leading dot refers to.
    package: String,
}

pub struct ScopeView {
    pub module: Seq<char>,
    pub file: Seq<char>,
    pub prefix: Seq<char>,
    pub owner: Option<Seq<char>>,
    pub package: Seq<char>,
}

spec fn scope_view(s: Scope) -> ScopeView {
    ScopeView {
        module: s.module@,
        file: s.file@,
        prefix: s.prefix@,
        owner: crate::dossier::opt_view(s.owner),
        package: s.package@,
    }
}

pub open spec fn unnamed() -> Seq<char> {
    seq!['<', 'u', 'n', 'n', 'a', 'm', 'e', 'd', '>']
}

/// The name a definition declares, or `<unnamed>` when the parser recovered none.
pub open spec fn def_name(node: Syntax) -> Seq<char> {
    match field_text(node, "name"@) {
        Some(t) => t,
        None => unnamed(),
    }
}

fn def_name_of(node: &Syntax) -> (r: String)
    ensures
        r@ == def_name(*node),
{
    match field_text_of(node, "name") {
        Some(t) => t,
        None => {
            let r = crate::text::owned("<unnamed>");
            proof {
                reveal_strlit("<unnamed>");
                assert(r@ =~= unnamed());
            }
            r
        },
    }
}

/// The class a `class_definition` declares.
pub open spec fn spec_capture_class(node: Syntax, sc: ScopeView) -> crate::dossier::SubjectView {
    let name = def_name(node);
    crate::dossier::SubjectView {
        qualname: crate::text::dotted(sc.prefix, name),
        name: name,
        module: sc.module,
        file: sc.file,
        line: node.line,
        bases: match field_index(node, "superclasses"@) {
            Some(j) => bases_upto(node.children@[j].children@, node.children@[j].children@.len() as int),
            None => Seq::empty(),
        },
        methods: spec_methods(node),
    }
}

fn capture_class(node: &Syntax, scope: &Scope) -> (r: Subject)
    ensures
        r@ == spec_capture_class(*node, scope_view(*scope)),
{
    let name = def_name_of(node);
    let bases = match field_index_of(node, "superclasses") {
        Some(j) => bases_of(&node.children[j]),
        None => {
            let b: Vec<String> = Vec::new();
            assert(crate::sitrep::names(b@) =~= Seq::<Seq<char>>::empty());
            b
        },
    };
    Subject {
        qualname: crate::text::dot(scope.prefix.as_str(), name.as_str()),
        name,
        module: scope.module.clone(),
        file: scope.file.clone(),
        line: node.line,
        bases,
        methods: methods_of(node),
    }
}

/// The function or method a `function_definition` declares.
pub open spec fn spec_capture_function(node: Syntax, sc: ScopeView, decorators: Seq<Seq<char>>) -> crate::dossier::OperationView {
    let name = def_name(node);
    crate::dossier::OperationView {
        callsign: crate::text::dotted(sc.prefix, name),
        name: name,
        module: sc.module,
        owner: sc.owner,
        file: sc.file,
        line: node.line,
        params: spec_params(node),
        decorators: decorators,
        is_async: node.children@.len() > 0 && node.children@[0].kind@ == "async"@,
        raw_calls: spec_calls(node),
        links: Seq::empty(),
        external: 0,
        recursive: false,
    }
}

fn capture_function(node: &Syntax, scope: &Scope, decorators: &Vec<String>) -> (r: Operation)
    ensures
        r@ == spec_capture_function(*node, scope_view(*scope), crate::sitrep::names(decorators@)),
{
    let name = def_name_of(node);
    let is_async = node.children.len() > 0 && kind_is(&node.children[0].kind, "async");
    let links: Vec<crate::dossier::Link> = Vec::new();
    assert(crate::dossier::link_views(links@) =~= Seq::<(Seq<char>, crate::dossier::Confidence)>::empty());
    Operation {
        callsign: crate::text::dot(scope.prefix.as_str(), name.as_str()),
        name,
        module: scope.module.clone(),
        owner: crate::dossier::copy_opt(&scope.owner),
        file: scope.file.clone(),
        line: node.line,
        params: params_of(node),
        decorators: crate::dossier::copy_names(decorators),
        is_async,
        raw_calls: calls_of(node),
        links,
        external: 0,
        recursive: false,
    }
}

// ------------------------------------------------------------------- walk --

/// Everything lifted out of one source file.
pub struct Sweep {
    pub subjects: Vec<Subject>,
    pub operations: Vec<Operation>,
    /// Names this module imported, resolved to dotted paths. Knowing that
    /// `encode` here means `pkg.core.encode` turns a guess into a fact.
    pub imports: Vec<Binding>,
}

#[verifier::ext_equal]
pub struct SweepView {
    pub subjects: Seq<crate::dossier::SubjectView>,
    pub operations: Seq<crate::dossier::OperationView>,
    pub imports: Seq<(Seq<char>, Seq<char>)>,
}

impl View for Sweep {
    type V = SweepView;

    open spec fn view(&self) -> SweepView {
        SweepView {
            subjects: self.subjects@.map_values(|s: Subject| s@),
            operations: self.operations@.map_values(|o: Operation| o@),
            imports: bindings_view(self.imports@),
        }
    }
}

pub open spec fn empty_sweep() -> SweepView {
    SweepView { subjects: Seq::empty(), operations: Seq::empty(), imports: Seq::empty() }
}

pub open spec fn sweep_join(a: SweepView, b: SweepView) -> SweepView {
    SweepView {
        subjects: a.subjects + b.subjects,
        operations: a.operations + b.operations,
        imports: a.imports + b.imports,
    }
}

impl Sweep {
    pub fn new() -> (s: Self)
        ensures
            s@ == empty_sweep(),
    {
        let s = Sweep { subjects: Vec::new(), operations: Vec::new(), imports: Vec::new() };
        assert(s@ =~= empty_sweep());
        s
    }
}

impl Default for Sweep {
    fn default() -> (s: Self)
        ensures
            s@ == empty_sweep(),
    {
        Sweep::new()
    }
}

/// The scope inside a class body or a function body named `qualname`.
pub open spec fn inner_scope(sc: ScopeView, qualname: Seq<char>, owner: Option<Seq<char>>) -> ScopeView {
    ScopeView { module: sc.module, file: sc.file, prefix: qualname, owner: owner, package: sc.package }
}

/// Definitions and imports under the first `n` children of `node`. A
/// decorated definition carries its decorators down to what it decorates.
pub open spec fn walk_upto(node: Syntax, n: int, sc: ScopeView, decorators: Seq<Seq<char>>) -> SweepView
    decreases node, 0int, n,
{
    if n <= 0 || n > node.children@.len() {
        empty_sweep()
    } else {
        let prev = walk_upto(node, n - 1, sc, decorators);
        let c = node.children@[n - 1];
        if c.kind@ == "decorated_definition"@ {
            match field_index(c, "definition"@) {
                Some(j) => {
                    proof {
                        lemma_field_index_from(c.children@, "definition"@, 0);
                        assert(decreases_to!(node => c.children@[j]));
                    }
                    sweep_join(prev, walk_node(c.children@[j], sc, spec_decorators(c)))
                },
                None => prev,
            }
        } else {
            sweep_join(prev, walk_node(c, sc, decorators))
        }
    }
}

pub open spec fn walk_all(node: Syntax, sc: ScopeView, decorators: Seq<Seq<char>>) -> SweepView
    decreases node, 1int, 0int,
{
    walk_upto(node, node.children@.len() as int, sc, decorators)
}

/// What one node contributes: a class and what its body defines, a function
/// and what its body defines (owned by the function, not by any class), the
/// bindings of an import, or whatever lies further down.
pub open spec fn walk_node(node: Syntax, sc: ScopeView, decorators: Seq<Seq<char>>) -> SweepView
    decreases node, 2int, 0int,
{
    if node.kind@ == "class_definition"@ {
        let subject = spec_capture_class(node, sc);
        let here = SweepView { subjects: seq![subject], operations: Seq::empty(), imports: Seq::empty() };
        match field_index(node, "body"@) {
            Some(j) => {
                proof {
                    lemma_field_index_from(node.children@, "body"@, 0);
                }
                sweep_join(here, walk_all(node.children@[j], inner_scope(sc, subject.qualname, Some(subject.qualname)), Seq::empty()))
            },
            None => here,
        }
    } else if node.kind@ == "function_definition"@ {
        let operation = spec_capture_function(node, sc, decorators);
        let here = SweepView { subjects: Seq::empty(), operations: seq![operation], imports: Seq::empty() };
        match field_index(node, "body"@) {
            Some(j) => {
                proof {
                    lemma_field_index_from(node.children@, "body"@, 0);
                }
                sweep_join(here, walk_all(node.children@[j], inner_scope(sc, operation.callsign, None), Seq::empty()))
            },
            None => here,
        }
    } else if node.kind@ == "import_statement"@ || node.kind@ == "import_from_statement"@ {
        SweepView { subjects: Seq::empty(), operations: Seq::empty(), imports: spec_bindings(node, sc.package) }
    } else {
        walk_all(node, sc, decorators)
    }
}

fn walk(node: &Syntax, scope: &Scope, decorators: &Vec<String>, out: &mut Sweep)
    ensures
        final(out)@ == sweep_join(old(out)@, walk_all(*node, scope_view(*scope), crate::sitrep::names(decorators@))),
    decreases *node, 1int, 0int,
{
    let ghost start = out@;
    let ghost decs = crate::sitrep::names(decorators@);
    let mut i: usize = 0;
    assert(sweep_join(start, walk_upto(*node, 0, scope_view(*scope), decs)) =~= start);
    while i < node.children.len()
        invariant
            i <= node.children.len(),
            decs == crate::sitrep::names(decorators@),
            out@ == sweep_join(start, walk_upto(*node, i as int, scope_view(*scope), decs)),
        decreases node.children.len() - i,
    {
        let c = &node.children[i];
        let ghost before = out@;
        if kind_is(&c.kind, "decorated_definition") {
            // Carry the decorators down to the definition they apply to.
            let marks = decorators_of(c);
            match field_index_of(c, "definition") {
                Some(j) => {
                    proof {
                        assert(decreases_to!(*node => node.children@[i as int].children@[j as int]));
                    }
                    walk_one(&c.children[j], scope, &marks, out);
                },
                None => {},
            }
        } else {
            walk_one(c, scope, decorators, out);
        }
        assert(out@ =~= sweep_join(start, walk_upto(*node, i + 1, scope_view(*scope), decs)));
        i = i + 1;
    }
}

fn walk_one(node: &Syntax, scope: &Scope, decorators: &Vec<String>, out: &mut Sweep)
    ensures
        final(out)@ == sweep_join(old(out)@, walk_node(*node, scope_view(*scope), crate::sitrep::names(decorators@))),
    decreases *node, 2int, 0int,
{
    let ghost start = out@;
    if kind_is(&node.kind, "class_definition") {
        let subject = capture_class(node, scope);
        let qualname = subject.qualname.clone();
        out.subjects.push(subject);
        let ghost mid = out@;
        assert(mid =~= sweep_join(start, SweepView { subjects: seq![subject@], operations: Seq::empty(), imports: Seq::empty() }));
        match field_index_of(node, "body") {
            Some(j) => {
                let inner = Scope {
                    module: scope.module.clone(),
                    file: scope.file.clone(),
                    prefix: qualname.clone(),
                    owner: Some(qualname),
                    package: scope.package.clone(),
                };
                let none: Vec<String> = Vec::new();
                assert(crate::sitrep::names(none@) =~= Seq::<Seq<char>>::empty());
                walk(&node.children[j], &inner, &none, out);
                assert(out@ =~= sweep_join(start, walk_node(*node, scope_view(*scope), crate::sitrep::names(decorators@))));
            },
            None => {},
        }
    } else if kind_is(&node.kind, "function_definition") {
        let operation = capture_function(node, scope, decorators);
        let callsign = operation.callsign.clone();
        out.operations.push(operation);
        let ghost mid = out@;
        assert(mid =~= sweep_join(start, SweepView { subjects: Seq::empty(), operations: seq![operation@], imports: Seq::empty() }));
        // A nested definition belongs to the enclosing function, not to the
        // class the outer function is a method of.
        match field_index_of(node, "body") {
            Some(j) => {
                let inner = Scope {
                    module: scope.module.clone(),
                    file: scope.file.clone(),
                    prefix: callsign,
                    owner: None,
                    package: scope.package.clone(),
                };
                let none: Vec<String> = Vec::new();
                assert(crate::sitrep::names(none@) =~= Seq::<Seq<char>>::empty());
                walk(&node.children[j], &inner, &none, out);
                assert(out@ =~= sweep_join(start, walk_node(*node, scope_view(*scope), crate::sitrep::names(decorators@))));
            },
            None => {},
        }
    } else if kind_is(&node.kind, "import_statement") || kind_is(&node.kind, "import_from_statement") {
        let found = bindings_of(node, &scope.package);
        let mut k: usize = 0;
        while k < found.len()
            invariant
                k <= found.len(),
                out@ == sweep_join(start, SweepView { subjects: Seq::empty(), operations: Seq::empty(), imports: bindings_view(found@).take(k as int) }),
            decreases found.len() - k,
        {
            let ghost before = out@;
            let ghost bi = out.imports@;
            let c = found[k].clone();
            assert(binding_view(c) == binding_view(found@[k as int]));
            out.imports.push(c);
            assert(bindings_view(out.imports@) =~= bindings_view(bi).push(binding_view(c)));
            assert(bindings_view(found@).take(k + 1) =~= bindings_view(found@).take(k as int).push(binding_view(found@[k as int])));
            assert(out@ =~= sweep_join(start, SweepView { subjects: Seq::empty(), operations: Seq::empty(), imports: bindings_view(found@).take(k + 1) }));
            k = k + 1;
        }
        assert(bindings_view(found@).take(k as int) =~= bindings_view(found@));
    } else {
        walk(node, scope, decorators, out);
    }
}

/// The package a single leading dot refers to: inside `__init__.py` that is
/// the module itself, anywhere else its parent.
pub open spec fn spec_package(module: Seq<char>, file: Seq<char>) -> Seq<char> {
    if crate::dossier::spec_ends_with(file, "__init__.py"@) {
        module
    } else {
        spec_parent_module(module)
    }
}

/// Extract every class and function definition from a parsed source file.
pub fn sweep_tree(root: &Syntax, module: &str, file: &str) -> (r: Sweep)
    ensures
        r@ == walk_all(
            *root,
            ScopeView {
                module: module@,
                file: file@,
                prefix: module@,
                owner: None,
                package: spec_package(module@, file@),
            },
            Seq::empty(),
        ),
{
    // `from .x import y` means something different inside __init__.py: the
    // leading dot is this package, not its parent.
    let package = if crate::text::ends_with(file, "__init__.py") {
        crate::text::owned(module)
    } else {
        parent_module(module)
    };
    let scope = Scope {
        module: crate::text::owned(module),
        file: crate::text::owned(file),
        prefix: crate::text::owned(module),
        owner: None,
        package,
    };
    let mut sweep = Sweep::new();
    let none: Vec<String> = Vec::new();
    assert(crate::sitrep::names(none@) =~= Seq::<Seq<char>>::empty());
    walk(root, &scope, &none, &mut sweep);
    assert(sweep@ =~= walk_all(*root, scope_view(scope), Seq::empty()));
    sweep
}

/// Why a Python parser could not be set up.
#[derive(Debug, Clone, Copy, PartialEq, Eq)]
pub enum GrammarError {
    /// The grammar was generated for a tree-sitter ABI this one cannot load.
    Version(usize),
    /// The grammar cannot be used for parsing.
    NotParseable,
}

/// Map tree-sitter's refusal (`tree_sitter::LanguageError`) onto the library's
/// own error, variant for variant. Nothing is claimed of which variant.
#[verifier::external_body]
fn grammar_error(e: tree_sitter::LanguageError) -> GrammarError {
    match e {
        tree_sitter::LanguageError::Version(v) => GrammarError::Version(v),
        tree_sitter::LanguageError::NotParseable => GrammarError::NotParseable,
    }
}

pub struct Interceptor {
    parser: tree_sitter::Parser,
}

impl Interceptor {
    /// A parser loaded with the Python grammar. tree-sitter's reason for
    /// refusing a grammar would come back as the library's own error, but it
    /// accepts this one.
    pub fn new() -> (r: Result<Self, GrammarError>)
        ensures
            r is Ok,
    {
        let mut parser = new_parser();
        match load_python(&mut parser) {
            Ok(()) => Ok(Self { parser }),
            Err(e) => Err(grammar_error(e)),
        }
    }

    /// Extract every class and function definition in a single source file:
    /// what `sweep_tree` reads off the tree tree-sitter's Python grammar parses
    /// `source` into, or nothing when the parse gives no tree.
    pub fn sweep(&mut self, source: &str, module: &str, file: &str) -> (r: Sweep)
        ensures
            sweep_of(r@, source@, module@, file@),
    {
        match parse_python(self, source) {
            Some(root) => sweep_tree(&root, module, file),
            None => Sweep::new(),
        }
    }
}

/// Where a file's definitions start: at module level, in `module`.
pub open spec fn file_scope(module: Seq<char>, file: Seq<char>) -> ScopeView {
    ScopeView { module: module, file: file, prefix: module, owner: None, package: spec_package(module, file) }
}

/// The parent of `m.z`, for a last segment `z` with no dot, is `m`.
proof fn lemma_parent_of_dotted(m: Seq<char>, z: Seq<char>)
    requires
        !z.contains('.'),
    ensures
        spec_parent_module(crate::text::dotted(m, z)) == m,
{
    let s = crate::text::dotted(m, z);
    let n = s.len() as int;
    let p = m.len() as int;
    crate::text::lemma_after_last_bounds(s, '.', n);
    let a = crate::text::after_last(s, '.', n);
    assert(s[p] == '.');
    if a > p + 1 {
        assert(s[a - 1] == z[a - 1 - p - 1]);
        assert(z.contains(z[a - 2 - p]));
    }
    assert(a == p + 1);
    assert(s.subrange(0, p) =~= m);
}

/// Inside a package's `__init__.py` a leading dot names the package itself,
/// as it does in every other module of that package: an import statement
/// binds the same names in `pkg/sub/__init__.py` (module `pkg.sub`) as in
/// `pkg/sub/z.py` (module `pkg.sub.z`), the dot standing for `pkg.sub` in
/// both.
pub proof fn law_init_imports_like_its_modules(
    m: Seq<char>,
    z: Seq<char>,
    init_file: Seq<char>,
    file: Seq<char>,
    node: Syntax,
)
    requires
        !z.contains('.'),
        crate::dossier::spec_ends_with(init_file, "__init__.py"@),
        !crate::dossier::spec_ends_with(file, "__init__.py"@),
    ensures
        file_scope(m, init_file).package == m,
        file_scope(crate::text::dotted(m, z), file).package == m,
        spec_bindings(node, file_scope(m, init_file).package) == spec_bindings(
            node,
            file_scope(crate::text::dotted(m, z), file).package,
        ),
{
    lemma_parent_of_dotted(m, z);
}

/// `v` is the sweep of `source` as module `module`, file `file`: the walk of
/// the tree the source parses into, or nothing when it parses into none.
pub open spec fn sweep_of(v: SweepView, source: Seq<char>, module: Seq<char>, file: Seq<char>) -> bool {
    if python_nodes(source) matches Some(ns) && ns.len() > 0 {
        exists|root: Syntax| #[trigger] parsed_as(source, root) && v == walk_all(root, file_scope(module, file), Seq::empty())
    } else {
        v == empty_sweep()
    }
}

} // verus!
