//! Plain-text rendering of the same picture the floor draws, for `--once`.
//! Returns the text rather than printing it, so it can be asserted against.

use vstd::prelude::*;
use vstd::view::View as _;

use crate::app::{App, View};
use crate::dossier::{link_targets, spec_location, spec_strip_module};
use crate::network::display;
use crate::sitrep::{
    names, row_view, rows_of_roots, spec_glyph, spec_status_tag, Counts, NodeKey, Row, Status,
    TreeNode,
};
use crate::strmap::StrMap;
use crate::text::{
    decimal, decimal_wide, join, joined, leaf_of, owned, pad, spec_decimal, spec_join, spec_leaf, spec_pad,
};

verus! {

// ----------------------------------------------------------- the pieces --

/// `  TAG` after a changed row, nothing after an unchanged one.
pub open spec fn tag_text(status: Status) -> Seq<char> {
    if status != Status::Nominal {
        "  "@ + spec_status_tag(status)
    } else {
        Seq::empty()
    }
}

/// A list of bases, or `object` when there are none.
pub open spec fn bases_text(list: Seq<Seq<char>>) -> Seq<char> {
    if list.len() == 0 {
        "object"@
    } else {
        spec_join(list, ", "@)
    }
}

/// Each name with a sign in front.
pub open spec fn marked(list: Seq<Seq<char>>, sign: Seq<char>) -> Seq<Seq<char>> {
    list.map_values(|m: Seq<char>| sign + m)
}

/// The indented `+gained -lost` line, when anything was gained or lost.
pub open spec fn delta_text(gained: Seq<Seq<char>>, lost: Seq<Seq<char>>) -> Seq<Seq<char>> {
    if gained.len() == 0 && lost.len() == 0 {
        Seq::empty()
    } else {
        seq![DETAIL@ + spec_join(marked(gained, "+"@) + marked(lost, "-"@), " "@)]
    }
}

/// One legend chip: glyph, count, tag.
pub open spec fn chip(status: Status, n: nat) -> Seq<char> {
    spec_glyph(status) + " "@ + spec_decimal(n) + " "@ + spec_status_tag(status) + "  "@
}

/// The chips for a list of statuses.
pub open spec fn chips(c: Counts, list: Seq<Status>) -> Seq<char>
    decreases list.len(),
{
    if list.len() == 0 {
        Seq::empty()
    } else {
        chips(c, list.drop_last()) + chip(list.last(), c.count(list.last()))
    }
}

/// The statuses a class can carry, in legend order.
pub open spec fn structure_legend() -> Seq<Status> {
    seq![Status::Activated, Status::Burned, Status::Realigned, Status::Relocated, Status::Amended]
}

/// The statuses an operation can carry, in legend order.
pub open spec fn network_legend() -> Seq<Status> {
    seq![Status::Activated, Status::Burned, Status::Rerouted, Status::Relocated, Status::Amended, Status::Wake]
}

pub const DETAIL: &'static str = "            ";

/// The statuses of a legend, as a list.
fn legend(for_classes: bool) -> (v: Vec<Status>)
    ensures
        v@ == (if for_classes {
            structure_legend()
        } else {
            network_legend()
        }),
{
    let mut v: Vec<Status> = Vec::new();
    v.push(Status::Activated);
    v.push(Status::Burned);
    if for_classes {
        v.push(Status::Realigned);
    } else {
        v.push(Status::Rerouted);
    }
    v.push(Status::Relocated);
    v.push(Status::Amended);
    if !for_classes {
        v.push(Status::Wake);
    }
    assert(v@ =~= (if for_classes {
        structure_legend()
    } else {
        network_legend()
    }));
    v
}

/// The chips of a legend, written out.
fn chips_of(c: &Counts, list: &Vec<Status>) -> (r: String)
    ensures
        r@ == chips(*c, list@),
{
    let mut r = String::new();
    let mut i: usize = 0;
    while i < list.len()
        invariant
            i <= list.len(),
            r@ == chips(*c, list@.take(i as int)),
        decreases list.len() - i,
    {
        let s = list[i];
        r.append(s.glyph());
        r.append(" ");
        r.append(decimal(c.of(s)).as_str());
        r.append(" ");
        r.append(s.tag());
        r.append("  ");
        proof {
            assert(list@.take(i + 1).drop_last() =~= list@.take(i as int));
        }
        i = i + 1;
    }
    assert(list@.take(i as int) =~= list@);
    r
}

/// `  TAG` after a changed row.
fn tag(status: Status) -> (r: String)
    ensures
        r@ == tag_text(status),
{
    if status.is_change() {
        joined("  ", status.tag())
    } else {
        String::new()
    }
}

/// A list of bases, or `object`.
fn bases(list: &Vec<String>) -> (r: String)
    ensures
        r@ == bases_text(names(list@)),
{
    if list.len() == 0 {
        owned("object")
    } else {
        join(list, ", ")
    }
}

/// Each name with a sign in front.
fn signed(list: &Vec<String>, sign: &str, out: &mut Vec<String>)
    ensures
        names(final(out)@) == names(old(out)@) + marked(names(list@), sign@),
{
    let ghost start = names(out@);
    let mut i: usize = 0;
    while i < list.len()
        invariant
            i <= list.len(),
            names(out@) == start + marked(names(list@).take(i as int), sign@),
        decreases list.len() - i,
    {
        let ghost before = names(out@);
        let m = joined(sign, list[i].as_str());
        out.push(m);
        proof {
            assert(names(out@) =~= before.push(m@));
            assert(names(list@).take(i + 1) =~= names(list@).take(i as int).push(list@[i as int]@));
            assert(marked(names(list@).take(i + 1), sign@) =~= marked(names(list@).take(i as int), sign@).push(m@));
        }
        i = i + 1;
    }
    assert(names(list@).take(i as int) =~= names(list@));
}

/// The `+gained -lost` line, when there is one.
fn delta_line(gained: &Vec<String>, lost: &Vec<String>) -> (r: Option<String>)
    ensures
        delta_text(names(gained@), names(lost@)) == match crate::dossier::opt_view(r) {
            Some(l) => seq![l],
            None => Seq::<Seq<char>>::empty(),
        },
{
    if gained.len() == 0 && lost.len() == 0 {
        return None;
    }
    let mut marks: Vec<String> = Vec::new();
    signed(gained, "+", &mut marks);
    signed(lost, "-", &mut marks);
    assert(names(marks@) =~= marked(names(gained@), "+"@) + marked(names(lost@), "-"@));
    let all = join(&marks, " ");
    Some(joined(DETAIL, all.as_str()))
}

/// Push an optional line.
fn push_opt(out: &mut Vec<String>, line: Option<String>)
    ensures
        names(final(out)@) == names(old(out)@) + match crate::dossier::opt_view(line) {
            Some(l) => seq![l],
            None => Seq::<Seq<char>>::empty(),
        },
{
    let ghost before = names(out@);
    match line {
        Some(l) => {
            out.push(l);
            assert(names(out@) =~= before.push(l@));
        },
        None => {
            assert(names(out@) =~= before + Seq::<Seq<char>>::empty());
        },
    }
}

/// Push a line.
fn push_line(out: &mut Vec<String>, line: String)
    ensures
        names(final(out)@) == names(old(out)@).push(line@),
{
    let ghost before = names(out@);
    out.push(line);
    assert(names(out@) =~= before.push(line@));
}

// ------------------------------------------------------------ structure --

/// The line drawn for a row of the inheritance forest, if any.
pub open spec fn structure_row(entries: StrMap<crate::structure::Entry>, prefix: Seq<char>, node: TreeNode) -> Option<
    Seq<char>,
> {
    match node.key {
        NodeKey::External(name) => Some(prefix + name@ + " <external>"@),
        NodeKey::Subject(q) => if entries.has(q@) {
            let e = entries.value_of(q@)@;
            Some(
                prefix + spec_glyph(e.status) + " "@ + node.label@ + (if e.mixins.len() == 0 {
                    Seq::empty()
                } else {
                    " +"@ + spec_join(e.mixins, " +"@)
                }) + "  "@ + spec_location(e.subject.module, e.subject.line) + tag_text(e.status),
            )
        } else {
            None
        },
        NodeKey::Operation(_) => None,
    }
}

pub open spec fn structure_rows_text(entries: StrMap<crate::structure::Entry>, rows: Seq<(Seq<char>, TreeNode)>) -> Seq<
    Seq<char>,
>
    decreases rows.len(),
{
    if rows.len() == 0 {
        Seq::empty()
    } else {
        structure_rows_text(entries, rows.drop_last()) + match structure_row(entries, rows.last().0, rows.last().1) {
            Some(l) => seq![l],
            None => Seq::empty(),
        }
    }
}

/// The detail lines under a class in the change log.
pub open spec fn structure_details_text(e: crate::structure::EntryView) -> Seq<Seq<char>> {
    let s = e.subject;
    match e.status {
        Status::Realigned => seq![
            DETAIL@ + "was  "@ + bases_text(e.prior_bases),
            DETAIL@ + "now  "@ + bases_text(s.bases),
        ],
        Status::Relocated => seq![
            DETAIL@ + "moved "@ + (match e.prior_module {
                Some(m) => m,
                None => Seq::empty(),
            }) + " → "@ + s.module,
        ],
        Status::Activated => seq![DETAIL@ + "inherits "@ + bases_text(s.bases)],
        Status::Burned => seq![DETAIL@ + "held "@ + bases_text(s.bases) + " at "@ + spec_location(s.module, s.line)],
        _ => Seq::empty(),
    }
}

/// The change log of a class whose bases changed says what they were in the
/// baseline snapshot, then what they are in the working tree.
pub proof fn law_realigned_reads_was_then_now(
    b: StrMap<crate::dossier::Subject>,
    c: StrMap<crate::dossier::Subject>,
    k: Seq<char>,
    e: crate::structure::EntryView,
)
    requires
        crate::structure::entry_ok(b, c, k, e),
        e.status == Status::Realigned,
    ensures
        b.has(k),
        c.has(k),
        b.value_of(k)@.bases != c.value_of(k)@.bases,
        structure_details_text(e) == seq![
            DETAIL@ + "was  "@ + bases_text(b.value_of(k)@.bases),
            DETAIL@ + "now  "@ + bases_text(c.value_of(k)@.bases),
        ],
{
}

/// The change log entry for one class.
pub open spec fn structure_entry_text(e: crate::structure::EntryView) -> Seq<Seq<char>> {
    let s = e.subject;
    seq![
        " "@ + spec_glyph(e.status) + " "@ + spec_pad(spec_status_tag(e.status), 9) + " "@
            + spec_strip_module(s.qualname, s.module, s.name) + "  ("@ + s.module + ")"@,
    ] + structure_details_text(e) + delta_text(e.gained, e.lost)
}

pub open spec fn structure_feed_text(vs: Seq<crate::structure::Entry>, idx: Seq<int>) -> Seq<Seq<char>>
    decreases idx.len(),
{
    if idx.len() == 0 {
        Seq::empty()
    } else {
        structure_feed_text(vs, idx.drop_last()) + structure_entry_text(vs[idx.last()]@)
    }
}

/// The structure section of the report.
pub open spec fn structure_text(s: crate::structure::Structure, changes_only: bool) -> Seq<Seq<char>> {
    let feed = crate::structure::feed_seq(s.entries);
    seq![
        Seq::empty(),
        "INHERITANCE STRUCTURE  "@ + chips(s.counts, structure_legend()) + "· "@ + spec_decimal(
            s.counts.spec_total() as nat,
        ) + " classes"@,
    ] + structure_rows_text(s.entries, rows_of_roots(s.roots@, 0, changes_only)) + seq![
        Seq::empty(),
        "SITREP · structure · "@ + spec_decimal(feed.len()) + " items"@,
    ] + structure_feed_text(s.entries.value_list(), feed)
}

/// The detail lines under a class in the change log.
pub(crate) fn structure_details(e: &crate::structure::Entry, out: &mut Vec<String>)
    ensures
        names(final(out)@) == names(old(out)@) + structure_details_text(e@),
{
    let ghost start = names(out@);
    match e.status {
        Status::Realigned => {
            push_line(out, joined3_owned(DETAIL, "was  ", bases(&e.prior_bases)));
            push_line(out, joined3_owned(DETAIL, "now  ", bases(&e.subject.bases)));
        },
        Status::Relocated => {
            let mut l = owned(DETAIL);
            l.append("moved ");
            match &e.prior_module {
                Some(m) => l.append(m.as_str()),
                None => {},
            }
            l.append(" → ");
            l.append(e.subject.module.as_str());
            push_line(out, l);
        },
        Status::Activated => {
            push_line(out, joined3_owned(DETAIL, "inherits ", bases(&e.subject.bases)));
        },
        Status::Burned => {
            let mut l = owned(DETAIL);
            l.append("held ");
            l.append(bases(&e.subject.bases).as_str());
            l.append(" at ");
            l.append(e.subject.location().as_str());
            push_line(out, l);
        },
        _ => {},
    }
    assert(names(out@) =~= start + structure_details_text(e@));
}

/// The change log entry for one class, as lines.
fn structure_entry(e: &crate::structure::Entry, out: &mut Vec<String>)
    ensures
        names(final(out)@) == names(old(out)@) + structure_entry_text(e@),
{
    let ghost start = names(out@);
    let mut head = owned(" ");
    head.append(e.status.glyph());
    head.append(" ");
    head.append(pad(e.status.tag(), 9).as_str());
    head.append(" ");
    head.append(e.subject.display_name().as_str());
    head.append("  (");
    head.append(e.subject.module.as_str());
    head.append(")");
    push_line(out, head);
    structure_details(e, out);
    push_opt(out, delta_line(&e.gained, &e.lost));
    assert(names(out@) =~= start + structure_entry_text(e@));
}

/// `a`, `b`, then an owned `c`.
fn joined3_owned(a: &str, b: &str, c: String) -> (r: String)
    ensures
        r@ == a@ + b@ + c@,
{
    let mut r = owned(a);
    r.append(b);
    r.append(c.as_str());
    r
}

/// The line for one row of the inheritance forest, if it draws one.
fn structure_row_line(entries: &StrMap<crate::structure::Entry>, row: &Row) -> (r: Option<String>)
    ensures
        crate::dossier::opt_view(r) == structure_row(*entries, row.prefix@, *row.node),
{
    match &row.node.key {
        NodeKey::External(name) => {
            let mut l = row.prefix.clone();
            l.append(name.as_str());
            l.append(" <external>");
            Some(l)
        },
        NodeKey::Subject(q) => {
            match entries.get(q.as_str()) {
                Some(e) => {
                    let mut l = row.prefix.clone();
                    l.append(e.status.glyph());
                    l.append(" ");
                    l.append(row.node.label.as_str());
                    if e.mixins.len() > 0 {
                        l.append(" +");
                        l.append(join(&e.mixins, " +").as_str());
                    }
                    l.append("  ");
                    l.append(e.subject.location().as_str());
                    l.append(tag(e.status).as_str());
                    Some(l)
                },
                None => None,
            }
        },
        NodeKey::Operation(_) => None,
    }
}

fn structure_lines(app: &App) -> (out: Vec<String>)
    requires
        app.structure.counts.spec_total() <= usize::MAX,
    ensures
        names(out@) == structure_text(app.structure, app.changes_only),
{
    let counts = &app.structure.counts;
    let mut head = owned("INHERITANCE STRUCTURE  ");
    head.append(chips_of(counts, &legend(true)).as_str());
    head.append("· ");
    head.append(decimal(counts.total()).as_str());
    head.append(" classes");
    let mut out: Vec<String> = Vec::new();
    push_line(&mut out, String::new());
    push_line(&mut out, head);
    let rows = app.structure.rows(app.changes_only);
    let ghost rv = rows@.map_values(|w: Row| row_view(w));
    let ghost top = names(out@);
    let mut i: usize = 0;
    while i < rows.len()
        invariant
            rv == rows@.map_values(|w: Row| row_view(w)),
            i <= rows.len(),
            names(out@) == top + structure_rows_text(app.structure.entries, rv.take(i as int)),
        decreases rows.len() - i,
    {
        let line = structure_row_line(&app.structure.entries, &rows[i]);
        proof {
            assert(rv.take(i + 1).drop_last() =~= rv.take(i as int));
            assert(rv.take(i + 1).last() == (rows@[i as int].prefix@, *rows@[i as int].node));
        }
        push_opt(&mut out, line);
        i = i + 1;
    }
    assert(rv.take(i as int) =~= rv);
    let feed = app.structure.feed();
    let ghost idx = crate::structure::feed_seq(app.structure.entries);
    push_line(&mut out, String::new());
    let mut title = owned("SITREP · structure · ");
    title.append(decimal(feed.len()).as_str());
    title.append(" items");
    push_line(&mut out, title);
    let ghost mid = names(out@);
    let mut j: usize = 0;
    while j < feed.len()
        invariant
            idx == crate::structure::feed_seq(app.structure.entries),
            feed@.len() == idx.len(),
            forall|t: int| 0 <= t < feed@.len() ==> *feed@[t] == app.structure.entries.value_list()[#[trigger] idx[t]],
            j <= feed.len(),
            names(out@) == mid + structure_feed_text(app.structure.entries.value_list(), idx.take(j as int)),
        decreases feed.len() - j,
    {
        structure_entry(feed[j], &mut out);
        proof {
            assert(idx.take(j + 1).drop_last() =~= idx.take(j as int));
            assert(*feed@[j as int] == app.structure.entries.value_list()[idx[j as int]]);
        }
        j = j + 1;
    }
    assert(idx.take(j as int) =~= idx);
    out
}

// -------------------------------------------------------------- traffic --

/// The line drawn for a row of the call forest, if any.
pub open spec fn network_row(entries: StrMap<crate::network::Entry>, prefix: Seq<char>, node: TreeNode) -> Option<
    Seq<char>,
> {
    match node.key {
        NodeKey::External(name) => Some(prefix + name@),
        NodeKey::Operation(cs) => if entries.has(cs@) {
            let e = entries.value_of(cs@)@;
            Some(
                prefix + spec_glyph(e.status) + " "@ + node.label@ + (if e.operation.recursive {
                    " ↻"@
                } else {
                    Seq::empty()
                }) + crate::dossier::opt_view(node.note).unwrap_or(Seq::empty()) + "  "@ + (if node.repeat {
                    "⋯"@
                } else {
                    spec_location(e.operation.module, e.operation.line)
                }) + (if node.edge != crate::sitrep::Edge::Live {
                    "  "@ + crate::sitrep::spec_edge_tag(node.edge)
                } else {
                    Seq::empty()
                }) + tag_text(e.status),
            )
        } else {
            None
        },
        NodeKey::Subject(_) => None,
    }
}

pub open spec fn network_rows_text(entries: StrMap<crate::network::Entry>, rows: Seq<(Seq<char>, TreeNode)>) -> Seq<
    Seq<char>,
>
    decreases rows.len(),
{
    if rows.len() == 0 {
        Seq::empty()
    } else {
        network_rows_text(entries, rows.drop_last()) + match network_row(entries, rows.last().0, rows.last().1) {
            Some(l) => seq![l],
            None => Seq::empty(),
        }
    }
}

/// `(a, b)` for an operation's parameters.
pub open spec fn signature_text(params: Seq<Seq<char>>) -> Seq<char> {
    seq!['('] + spec_join(params, ", "@) + seq![')']
}

/// The detail lines under an operation in the change log.
pub open spec fn network_details_text(e: crate::network::EntryView) -> Seq<Seq<char>> {
    let op = e.operation;
    match e.status {
        Status::Activated => seq![
            DETAIL@ + "calls "@ + (if op.links.len() == 0 {
                "nothing in-package, "@ + spec_decimal(op.external as nat) + " out"@
            } else {
                spec_join(link_targets(op.links).map_values(|t: Seq<char>| spec_leaf(t)), ", "@)
            }),
        ],
        Status::Burned => seq![DETAIL@ + "was at "@ + spec_location(op.file, op.line)],
        Status::Wake => e.moved.map_values(|m: Seq<char>| DETAIL@ + m),
        Status::Amended => seq![DETAIL@ + "("@ + spec_join(e.prior_params, ", "@) + ") → "@ + signature_text(op.params)],
        Status::Relocated => seq![
            DETAIL@ + "moved "@ + (match e.prior_module {
                Some(m) => m,
                None => Seq::empty(),
            }) + " → "@ + op.module,
        ],
        _ => Seq::empty(),
    }
}

/// The `overrides` line under an operation, when it overrides anything.
pub open spec fn overrides_text(e: crate::network::EntryView) -> Seq<Seq<char>> {
    match e.overrides {
        Some(base) => seq![DETAIL@ + "overrides "@ + base],
        None => Seq::empty(),
    }
}

/// The change log entry for one operation.
pub open spec fn network_entry_text(e: crate::network::EntryView) -> Seq<Seq<char>> {
    let op = e.operation;
    seq![
        " "@ + spec_glyph(e.status) + " "@ + spec_pad(spec_status_tag(e.status), 9) + " "@ + display(op)
            + signature_text(op.params) + "  ("@ + op.module + ")"@,
    ] + network_details_text(e) + delta_text(e.gained, e.lost) + overrides_text(e)
}

pub open spec fn network_feed_text(vs: Seq<crate::network::Entry>, idx: Seq<int>) -> Seq<Seq<char>>
    decreases idx.len(),
{
    if idx.len() == 0 {
        Seq::empty()
    } else {
        network_feed_text(vs, idx.drop_last()) + network_entry_text(vs[idx.last()]@)
    }
}

/// The traffic section of the report.
pub open spec fn network_text(n: crate::network::Network, changes_only: bool) -> Seq<Seq<char>> {
    let feed = crate::network::feed_seq(n.entries);
    seq![
        Seq::empty(),
        "CALL TRAFFIC  "@ + chips(n.counts, network_legend()) + "· "@ + spec_decimal(n.counts.spec_total() as nat)
            + " operations · "@ + spec_decimal(n.links as nat) + " links ("@ + spec_decimal(n.probable as nat)
            + " inferred) · "@ + spec_decimal(n.external as nat) + " calls leave the package"@,
    ] + network_rows_text(n.entries, rows_of_roots(n.roots@, 0, changes_only)) + seq![
        Seq::empty(),
        "SITREP · traffic · "@ + spec_decimal(feed.len()) + " items"@,
    ] + network_feed_text(n.entries.value_list(), feed)
}

/// The line for one row of the call forest, if it draws one.
fn network_row_line(entries: &StrMap<crate::network::Entry>, row: &Row) -> (r: Option<String>)
    ensures
        crate::dossier::opt_view(r) == network_row(*entries, row.prefix@, *row.node),
{
    match &row.node.key {
        NodeKey::External(name) => Some(joined(row.prefix.as_str(), name.as_str())),
        NodeKey::Operation(cs) => {
            match entries.get(cs.as_str()) {
                Some(e) => {
                    let mut l = row.prefix.clone();
                    l.append(e.status.glyph());
                    l.append(" ");
                    l.append(row.node.label.as_str());
                    if e.operation.recursive {
                        l.append(" ↻");
                    }
                    match &row.node.note {
                        Some(n) => l.append(n.as_str()),
                        None => {},
                    }
                    l.append("  ");
                    if row.node.repeat {
                        l.append("⋯");
                    } else {
                        l.append(e.operation.location().as_str());
                    }
                    if row.node.edge.is_change() {
                        l.append("  ");
                        l.append(row.node.edge.tag());
                    }
                    l.append(tag(e.status).as_str());
                    Some(l)
                },
                None => None,
            }
        },
        NodeKey::Subject(_) => None,
    }
}

/// The leaves of an operation's call targets.
fn call_leaves(op: &crate::dossier::Operation) -> (r: Vec<String>)
    ensures
        names(r@) == link_targets(op@.links).map_values(|t: Seq<char>| spec_leaf(t)),
{
    let mut r: Vec<String> = Vec::new();
    let mut i: usize = 0;
    while i < op.links.len()
        invariant
            i <= op.links.len(),
            names(r@) == link_targets(op@.links).take(i as int).map_values(|t: Seq<char>| spec_leaf(t)),
        decreases op.links.len() - i,
    {
        let ghost before = names(r@);
        let l = leaf_of(op.links[i].target.as_str());
        r.push(l);
        proof {
            assert(names(r@) =~= before.push(l@));
            assert(link_targets(op@.links).take(i + 1) =~= link_targets(op@.links).take(i as int).push(op.links@[i as int].target@));
            assert(link_targets(op@.links).take(i + 1).map_values(|t: Seq<char>| spec_leaf(t)) =~= link_targets(op@.links).take(
                i as int,
            ).map_values(|t: Seq<char>| spec_leaf(t)).push(l@));
        }
        i = i + 1;
    }
    assert(link_targets(op@.links).take(i as int) =~= link_targets(op@.links));
    r
}

/// The detail lines under an operation in the change log.
pub(crate) fn network_details(e: &crate::network::Entry, out: &mut Vec<String>)
    ensures
        names(final(out)@) == names(old(out)@) + network_details_text(e@),
{
    let ghost start = names(out@);
    let op = &e.operation;
    match e.status {
        Status::Activated => {
            let mut l = owned(DETAIL);
            l.append("calls ");
            if op.links.len() == 0 {
                l.append("nothing in-package, ");
                l.append(decimal(op.external).as_str());
                l.append(" out");
                assert(op@.links.len() == 0);
                assert(l@ =~= DETAIL@ + "calls "@ + ("nothing in-package, "@ + spec_decimal(op.external as nat) + " out"@));
            } else {
                let leaves = call_leaves(op);
                let all = join(&leaves, ", ");
                l.append(all.as_str());
                assert(op@.links.len() != 0);
                assert(all@ == spec_join(link_targets(op@.links).map_values(|t: Seq<char>| spec_leaf(t)), ", "@));
            }
            push_line(out, l);
        },
        Status::Burned => {
            push_line(out, joined3_owned(DETAIL, "was at ", op.source()));
        },
        Status::Wake => {
            let ghost before = names(out@);
            let mut i: usize = 0;
            while i < e.moved.len()
                invariant
                    i <= e.moved.len(),
                    names(out@) == before + names(e.moved@).take(i as int).map_values(|m: Seq<char>| DETAIL@ + m),
                decreases e.moved.len() - i,
            {
                let l = joined(DETAIL, e.moved[i].as_str());
                let ghost b2 = names(out@);
                push_line(out, l);
                proof {
                    assert(names(e.moved@).take(i + 1) =~= names(e.moved@).take(i as int).push(e.moved@[i as int]@));
                    assert(names(e.moved@).take(i + 1).map_values(|m: Seq<char>| DETAIL@ + m) =~= names(e.moved@).take(
                        i as int,
                    ).map_values(|m: Seq<char>| DETAIL@ + m).push(l@));
                }
                i = i + 1;
            }
            assert(names(e.moved@).take(i as int) =~= names(e.moved@));
        },
        Status::Amended => {
            let mut l = owned(DETAIL);
            l.append("(");
            l.append(join(&e.prior_params, ", ").as_str());
            l.append(") → ");
            l.append(op.signature().as_str());
            push_line(out, l);
            proof {
                reveal_strlit("(");
                reveal_strlit(")");
                assert("("@ =~= seq!['(']);
                assert(")"@ =~= seq![')']);
            }
        },
        Status::Relocated => {
            let mut l = owned(DETAIL);
            l.append("moved ");
            match &e.prior_module {
                Some(m) => l.append(m.as_str()),
                None => {},
            }
            l.append(" → ");
            l.append(op.module.as_str());
            push_line(out, l);
        },
        _ => {},
    }
    proof {
        reveal_strlit("(");
        reveal_strlit(")");
        assert("("@ =~= seq!['(']);
        assert(")"@ =~= seq![')']);
    }
    assert(names(out@) =~= start + network_details_text(e@));
}

/// Push the `overrides` line, when there is one.
pub(crate) fn overrides_line(e: &crate::network::Entry, out: &mut Vec<String>)
    ensures
        names(final(out)@) == names(old(out)@) + overrides_text(e@),
{
    let ghost start = names(out@);
    match &e.overrides {
        Some(base) => push_line(out, joined3_owned(DETAIL, "overrides ", base.clone())),
        None => {},
    }
    assert(names(out@) =~= start + overrides_text(e@));
}

/// The change log entry for one operation, as lines.
fn network_entry(e: &crate::network::Entry, out: &mut Vec<String>)
    ensures
        names(final(out)@) == names(old(out)@) + network_entry_text(e@),
{
    let ghost start = names(out@);
    let op = &e.operation;
    let mut head = owned(" ");
    head.append(e.status.glyph());
    head.append(" ");
    head.append(pad(e.status.tag(), 9).as_str());
    head.append(" ");
    head.append(op.display_name().as_str());
    head.append(op.signature().as_str());
    head.append("  (");
    head.append(op.module.as_str());
    head.append(")");
    proof {
        reveal_strlit("(");
        reveal_strlit(")");
        assert("("@ =~= seq!['(']);
        assert(")"@ =~= seq![')']);
    }
    let ghost ev = e@;
    let ghost first = seq![
        " "@ + spec_glyph(ev.status) + " "@ + spec_pad(spec_status_tag(ev.status), 9) + " "@ + display(ev.operation)
            + signature_text(ev.operation.params) + "  ("@ + ev.operation.module + ")"@,
    ];
    assert(seq![head@] =~= first);
    push_line(out, head);
    let ghost after_head = names(out@);
    assert(after_head =~= start + first);
    network_details(e, out);
    let ghost details = network_details_text(ev);
    push_opt(out, delta_line(&e.gained, &e.lost));
    assert(names(out@) =~= after_head + details + delta_text(ev.gained, ev.lost));
    overrides_line(e, out);
    proof {
        reveal_strlit("(");
        reveal_strlit(")");
        assert("("@ =~= seq!['(']);
        assert(")"@ =~= seq![')']);
    }
    assert(names(out@) =~= start + network_entry_text(e@));
}

fn network_lines(app: &App) -> (out: Vec<String>)
    requires
        app.network.counts.spec_total() <= usize::MAX,
    ensures
        names(out@) == network_text(app.network, app.changes_only),
{
    let counts = &app.network.counts;
    let mut head = owned("CALL TRAFFIC  ");
    head.append(chips_of(counts, &legend(false)).as_str());
    head.append("· ");
    head.append(decimal(counts.total()).as_str());
    head.append(" operations · ");
    head.append(decimal(app.network.links).as_str());
    head.append(" links (");
    head.append(decimal(app.network.probable).as_str());
    head.append(" inferred) · ");
    head.append(decimal(app.network.external).as_str());
    head.append(" calls leave the package");
    let mut out: Vec<String> = Vec::new();
    push_line(&mut out, String::new());
    push_line(&mut out, head);
    let rows = app.network.rows(app.changes_only);
    let ghost rv = rows@.map_values(|w: Row| row_view(w));
    let ghost top = names(out@);
    let mut i: usize = 0;
    while i < rows.len()
        invariant
            rv == rows@.map_values(|w: Row| row_view(w)),
            i <= rows.len(),
            names(out@) == top + network_rows_text(app.network.entries, rv.take(i as int)),
        decreases rows.len() - i,
    {
        let line = network_row_line(&app.network.entries, &rows[i]);
        proof {
            assert(rv.take(i + 1).drop_last() =~= rv.take(i as int));
            assert(rv.take(i + 1).last() == (rows@[i as int].prefix@, *rows@[i as int].node));
        }
        push_opt(&mut out, line);
        i = i + 1;
    }
    assert(rv.take(i as int) =~= rv);
    let feed = app.network.feed();
    let ghost idx = crate::network::feed_seq(app.network.entries);
    push_line(&mut out, String::new());
    let mut title = owned("SITREP · traffic · ");
    title.append(decimal(feed.len()).as_str());
    title.append(" items");
    push_line(&mut out, title);
    let ghost mid = names(out@);
    let mut j: usize = 0;
    while j < feed.len()
        invariant
            idx == crate::network::feed_seq(app.network.entries),
            feed@.len() == idx.len(),
            forall|t: int| 0 <= t < feed@.len() ==> *feed@[t] == app.network.entries.value_list()[#[trigger] idx[t]],
            j <= feed.len(),
            names(out@) == mid + network_feed_text(app.network.entries.value_list(), idx.take(j as int)),
        decreases feed.len() - j,
    {
        network_entry(feed[j], &mut out);
        proof {
            assert(idx.take(j + 1).drop_last() =~= idx.take(j as int));
            assert(*feed@[j as int] == app.network.entries.value_list()[idx[j as int]]);
        }
        j = j + 1;
    }
    assert(idx.take(j as int) =~= idx);
    out
}

// ---------------------------------------------------------------- whole --

/// The lines of the report; `only` restricts it to a single view.
pub open spec fn report_lines(app: App, only: Option<View>) -> Seq<Seq<char>> {
    seq![
        "WATCH FLOOR · target "@ + app.target.pkg_name@ + " ("@ + app.target.pkg_rel@ + "/)"@,
        "  baseline "@ + app.baseline.label@ + " ("@ + spec_decimal(app.baseline.files as nat) + " files)   current "@
            + app.current.label@ + " ("@ + spec_decimal(app.current.files as nat) + " files)   "@ + spec_decimal(
            app.scan_ms as nat,
        ) + "ms"@,
    ] + (if only != Some(View::Network) {
        structure_text(app.structure, app.changes_only)
    } else {
        Seq::empty()
    }) + (if only != Some(View::Structure) {
        network_text(app.network, app.changes_only)
    } else {
        Seq::empty()
    })
}

/// Lines, each ended by a newline, run together.
pub open spec fn joined_lines(ls: Seq<Seq<char>>) -> Seq<char>
    decreases ls.len(),
{
    if ls.len() == 0 {
        Seq::empty()
    } else {
        joined_lines(ls.drop_last()) + ls.last() + seq!['\n']
    }
}

/// Append lines.
fn push_all(out: &mut Vec<String>, more: Vec<String>)
    ensures
        names(final(out)@) == names(old(out)@) + names(more@),
{
    let mut more = more;
    let ghost a = out@;
    let ghost b = more@;
    out.append(&mut more);
    assert(names(out@) =~= names(a) + names(b));
}

/// The full report. `only` restricts it to a single view.
pub fn render(app: &App, only: Option<View>) -> (r: String)
    requires
        app.structure.counts.spec_total() <= usize::MAX,
        app.network.counts.spec_total() <= usize::MAX,
    ensures
        r@ == joined_lines(report_lines(*app, only)),
{
    let mut first = owned("WATCH FLOOR · target ");
    first.append(app.target.pkg_name.as_str());
    first.append(" (");
    first.append(app.target.pkg_rel.as_str());
    first.append("/)");
    let mut second = owned("  baseline ");
    second.append(app.baseline.label.as_str());
    second.append(" (");
    second.append(decimal(app.baseline.files).as_str());
    second.append(" files)   current ");
    second.append(app.current.label.as_str());
    second.append(" (");
    second.append(decimal(app.current.files).as_str());
    second.append(" files)   ");
    second.append(decimal_wide(app.scan_ms).as_str());
    second.append("ms");
    let mut out: Vec<String> = Vec::new();
    push_line(&mut out, first);
    push_line(&mut out, second);
    if only != Some(View::Network) {
        push_all(&mut out, structure_lines(app));
    }
    if only != Some(View::Structure) {
        push_all(&mut out, network_lines(app));
    }
    assert(names(out@) =~= report_lines(*app, only));
    let ghost ls = names(out@);
    let mut r = String::new();
    let mut i: usize = 0;
    while i < out.len()
        invariant
            ls == names(out@),
            i <= out.len(),
            r@ == joined_lines(ls.take(i as int)),
        decreases out.len() - i,
    {
        r.append(out[i].as_str());
        r.push('\n');
        proof {
            assert(ls.take(i + 1).drop_last() =~= ls.take(i as int));
        }
        i = i + 1;
    }
    assert(ls.take(i as int) =~= ls);
    r
}

} // verus!
