//! The watch floor itself: every line the operator sees, with its colours.
//! Laying the lines out in boxes on a terminal is the front end's job.

use vstd::prelude::*;
use vstd::view::View as _;

use crate::app::{App, Pane, View};
use crate::dossier::{spec_location, spec_strip_module};
use crate::look::{
    color, edge_color, spec_bold, spec_color, spec_edge_color, spec_in, spec_plain, strip_view, strips_view, Hue,
    Look, Strip,
};
use crate::network::display;
use crate::report::{
    network_details, network_details_text, overrides_line, overrides_text, signature_text, structure_details,
    structure_details_text, chips, network_legend, structure_legend,
};
use crate::sitrep::{
    names, row_view, rows_of_roots, spec_edge_tag, spec_glyph, spec_status_tag, Counts, Edge, NodeKey,
    Row, Status, TreeNode,
};
use crate::strmap::StrMap;
use crate::text::{decimal, decimal_wide, join, joined, owned, pad, spec_decimal, spec_join, spec_pad};

verus! {

/// A line's view, as its pieces.
pub type LineView = Seq<(Seq<char>, Look)>;

/// Bold when the thing changed.
pub open spec fn emphasis(hue: Hue, bold: bool) -> Look {
    if bold {
        spec_bold(hue)
    } else {
        spec_in(hue)
    }
}

/// A trailing tag, in the hue of what it tags, dimmed.
pub open spec fn tag_look(hue: Hue) -> Look {
    Look { fg: Some(hue), bg: None, bold: false, dim: true }
}

/// The look of a tab: lit when its view is showing.
pub open spec fn tab_look(lit: bool) -> Look {
    if lit {
        Look { fg: Some(Hue::Black), bg: Some(Hue::White), bold: true, dim: false }
    } else {
        spec_in(Hue::DarkGray)
    }
}

/// One legend chip of the header, lit when anything carries the status.
pub open spec fn header_chip(status: Status, n: nat) -> (Seq<char>, Look) {
    (
        spec_glyph(status) + " "@ + spec_decimal(n) + " "@ + spec_status_tag(status) + "   "@,
        if n > 0 {
            spec_bold(spec_color(status))
        } else {
            spec_in(Hue::DarkGray)
        },
    )
}

pub open spec fn header_chips(c: Counts, list: Seq<Status>) -> LineView
    decreases list.len(),
{
    if list.len() == 0 {
        Seq::empty()
    } else {
        header_chips(c, list.drop_last()).push(header_chip(list.last(), c.count(list.last())))
    }
}

/// What a view's header totals up.
pub open spec fn header_summary(app: App) -> Seq<char> {
    match app.view {
        View::Structure => "· "@ + spec_decimal(app.structure.counts.spec_total() as nat) + " classes"@,
        View::Network => "· "@ + spec_decimal(app.network.counts.spec_total() as nat) + " operations · "@
            + spec_decimal(app.network.links as nat) + " links ("@ + spec_decimal(app.network.probable as nat)
            + " inferred) · "@ + spec_decimal(app.network.external as nat) + " calls leave the package"@,
    }
}

/// The three lines of the header.
pub open spec fn header_spec(app: App, age_secs: u64) -> Seq<LineView> {
    let (counts, legend) = match app.view {
        View::Structure => (app.structure.counts, structure_legend()),
        View::Network => (app.network.counts, network_legend()),
    };
    seq![
        seq![
            ("WATCH FLOOR"@, spec_bold(Hue::White)),
            ("  ·  target "@, spec_in(Hue::DarkGray)),
            (app.target.pkg_name@, spec_bold(Hue::White)),
            ("  ("@ + app.target.pkg_rel@ + "/)   "@, spec_in(Hue::DarkGray)),
            (" 1 STRUCTURE "@, tab_look(app.view == View::Structure)),
            (" "@, spec_plain()),
            (" 2 TRAFFIC "@, tab_look(app.view == View::Network)),
        ],
        seq![
            ("  baseline "@, spec_in(Hue::DarkGray)),
            (app.baseline.label@, spec_in(Hue::Yellow)),
            (" ("@ + spec_decimal(app.baseline.files as nat) + " files)"@, spec_in(Hue::DarkGray)),
            ("   current "@, spec_in(Hue::DarkGray)),
            (app.current.label@, spec_in(Hue::Green)),
            (" ("@ + spec_decimal(app.current.files as nat) + " files)"@, spec_in(Hue::DarkGray)),
            ("   resynced "@ + spec_decimal(age_secs as nat) + "s ago in "@ + spec_decimal(app.scan_ms as nat) + "ms"@, spec_in(Hue::DarkGray)),
        ],
        seq![("  "@, spec_plain())] + header_chips(counts, legend) + seq![(header_summary(app), spec_in(Hue::DarkGray))],
    ]
}

/// Statuses of the legend shown with the view.
fn legend_of(view: View) -> (v: Vec<Status>)
    ensures
        v@ == (match view {
            View::Structure => structure_legend(),
            View::Network => network_legend(),
        }),
{
    let mut v: Vec<Status> = Vec::new();
    v.push(Status::Activated);
    v.push(Status::Burned);
    match view {
        View::Structure => v.push(Status::Realigned),
        View::Network => v.push(Status::Rerouted),
    }
    v.push(Status::Relocated);
    v.push(Status::Amended);
    match view {
        View::Structure => {},
        View::Network => v.push(Status::Wake),
    }
    assert(v@ =~= (match view {
        View::Structure => structure_legend(),
        View::Network => network_legend(),
    }));
    v
}

/// The header: target, tabs, both snapshots, and the legend with counts.
pub fn header(app: &App, age_secs: u64) -> (r: Vec<Strip>)
    requires
        app.structure.counts.spec_total() <= usize::MAX,
        app.network.counts.spec_total() <= usize::MAX,
    ensures
        strips_view(r@) == header_spec(*app, age_secs),
{
    let dim = Look::in_hue(Hue::DarkGray);
    let mut first = Strip::blank();
    first.add_str("WATCH FLOOR", Look::bold_hue(Hue::White));
    first.add_str("  ·  target ", dim);
    first.add(app.target.pkg_name.clone(), Look::bold_hue(Hue::White));
    let mut place = owned("  (");
    place.append(app.target.pkg_rel.as_str());
    place.append("/)   ");
    first.add(place, dim);
    let lit = Look { fg: Some(Hue::Black), bg: Some(Hue::White), bold: true, dim: false };
    first.add_str(" 1 STRUCTURE ", if app.view == View::Structure { lit } else { dim });
    first.add_str(" ", Look::plain());
    first.add_str(" 2 TRAFFIC ", if app.view == View::Network { lit } else { dim });

    let mut second = Strip::blank();
    second.add_str("  baseline ", dim);
    second.add(app.baseline.label.clone(), Look::in_hue(Hue::Yellow));
    let mut files = owned(" (");
    files.append(decimal(app.baseline.files).as_str());
    files.append(" files)");
    second.add(files, dim);
    second.add_str("   current ", dim);
    second.add(app.current.label.clone(), Look::in_hue(Hue::Green));
    let mut files = owned(" (");
    files.append(decimal(app.current.files).as_str());
    files.append(" files)");
    second.add(files, dim);
    let mut age = owned("   resynced ");
    age.append(decimal_wide(age_secs as u128).as_str());
    age.append("s ago in ");
    age.append(decimal_wide(app.scan_ms).as_str());
    age.append("ms");
    second.add(age, dim);

    let counts = match app.view {
        View::Structure => &app.structure.counts,
        View::Network => &app.network.counts,
    };
    let list = legend_of(app.view);
    let mut third = Strip::blank();
    third.add_str("  ", Look::plain());
    let ghost lead = strip_view(third);
    let mut i: usize = 0;
    while i < list.len()
        invariant
            i <= list.len(),
            dim == spec_in(Hue::DarkGray),
            strip_view(third) == lead + header_chips(*counts, list@.take(i as int)),
        decreases list.len() - i,
    {
        let s = list[i];
        let n = counts.of(s);
        let mut chip = owned(s.glyph());
        chip.append(" ");
        chip.append(decimal(n).as_str());
        chip.append(" ");
        chip.append(s.tag());
        chip.append("   ");
        let look = if n > 0 {
            Look::bold_hue(color(s))
        } else {
            dim
        };
        let ghost before = strip_view(third);
        third.add(chip, look);
        proof {
            assert(list@.take(i + 1).drop_last() =~= list@.take(i as int));
            assert(list@.take(i + 1).last() == s);
            assert((chip@, look) == header_chip(s, counts.count(s)));
            assert(strip_view(third) =~= lead + header_chips(*counts, list@.take(i + 1)));
        }
        i = i + 1;
    }
    assert(list@.take(i as int) =~= list@);
    let summary = match app.view {
        View::Structure => {
            let mut t = owned("· ");
            t.append(decimal(app.structure.counts.total()).as_str());
            t.append(" classes");
            t
        },
        View::Network => {
            let mut t = owned("· ");
            t.append(decimal(app.network.counts.total()).as_str());
            t.append(" operations · ");
            t.append(decimal(app.network.links).as_str());
            t.append(" links (");
            t.append(decimal(app.network.probable).as_str());
            t.append(" inferred) · ");
            t.append(decimal(app.network.external).as_str());
            t.append(" calls leave the package");
            t
        },
    };
    third.add(summary, dim);

    let mut r: Vec<Strip> = Vec::new();
    r.push(first);
    r.push(second);
    r.push(third);
    assert(strips_view(r@) =~~= header_spec(*app, age_secs));
    r
}

// ------------------------------------------------------------------ trees --

/// The branch lines before a row.
pub open spec fn chrome(prefix: Seq<char>) -> (Seq<char>, Look) {
    (prefix, spec_in(Hue::Chrome))
}

/// A name outside the package.
pub open spec fn external_pieces(name: Seq<char>) -> LineView {
    seq![(name, spec_bold(Hue::Blue)), (" ⟨external⟩"@, spec_in(Hue::DarkGray))]
}

/// The line drawn for a row of the inheritance forest, if any.
pub open spec fn structure_line(entries: StrMap<crate::structure::Entry>, prefix: Seq<char>, node: TreeNode) -> Option<LineView> {
    match node.key {
        NodeKey::External(name) => Some(seq![chrome(prefix)] + external_pieces(name@)),
        NodeKey::Subject(q) => if entries.has(q@) {
            let e = entries.value_of(q@)@;
            let hue = spec_color(e.status);
            let look = emphasis(hue, e.status != Status::Nominal);
            Some(
                seq![chrome(prefix), (spec_glyph(e.status) + " "@, look), (node.label@, look)] + (if e.mixins.len() == 0 {
                    Seq::empty()
                } else {
                    seq![(" +"@ + spec_join(e.mixins, " +"@), spec_in(Hue::Blue))]
                }) + seq![("  "@ + spec_location(e.subject.module, e.subject.line), spec_in(Hue::DarkGray))] + (if e.status
                    != Status::Nominal {
                    seq![("  "@ + spec_status_tag(e.status), tag_look(hue))]
                } else {
                    Seq::empty()
                }),
            )
        } else {
            None
        },
        NodeKey::Operation(_) => None,
    }
}

/// The line drawn for a row of the call forest, if any. A changed link is the
/// headline; otherwise the operation speaks.
pub open spec fn network_line(entries: StrMap<crate::network::Entry>, prefix: Seq<char>, node: TreeNode) -> Option<LineView> {
    match node.key {
        NodeKey::External(name) => Some(seq![chrome(prefix)] + external_pieces(name@)),
        NodeKey::Operation(cs) => if entries.has(cs@) {
            let e = entries.value_of(cs@)@;
            let moved = node.edge != Edge::Live;
            let changed = e.status != Status::Nominal;
            let hue = if moved {
                spec_edge_color(node.edge)
            } else {
                spec_color(e.status)
            };
            let look = emphasis(hue, changed || moved);
            Some(
                seq![chrome(prefix), (spec_glyph(e.status) + " "@, look), (node.label@, look)] + (if e.operation.recursive {
                    seq![(" ↻"@, spec_in(Hue::Blue))]
                } else {
                    Seq::empty()
                }) + (match node.note {
                    Some(n) => seq![(" "@ + n@, spec_in(Hue::DarkGray))],
                    None => Seq::empty(),
                }) + (if node.repeat {
                    seq![(" ⋯"@, spec_in(Hue::DarkGray))]
                } else {
                    seq![("  "@ + spec_location(e.operation.module, e.operation.line), spec_in(Hue::DarkGray))]
                }) + (if moved {
                    seq![("  "@ + spec_edge_tag(node.edge), tag_look(hue))]
                } else {
                    Seq::empty()
                }) + (if changed {
                    seq![("  "@ + spec_status_tag(e.status), tag_look(spec_color(e.status)))]
                } else {
                    Seq::empty()
                }),
            )
        } else {
            None
        },
        NodeKey::Subject(_) => None,
    }
}

pub open spec fn structure_lines_spec(entries: StrMap<crate::structure::Entry>, rows: Seq<(Seq<char>, TreeNode)>) -> Seq<LineView>
    decreases rows.len(),
{
    if rows.len() == 0 {
        Seq::empty()
    } else {
        structure_lines_spec(entries, rows.drop_last()) + match structure_line(entries, rows.last().0, rows.last().1) {
            Some(l) => seq![l],
            None => Seq::empty(),
        }
    }
}

pub open spec fn network_lines_spec(entries: StrMap<crate::network::Entry>, rows: Seq<(Seq<char>, TreeNode)>) -> Seq<LineView>
    decreases rows.len(),
{
    if rows.len() == 0 {
        Seq::empty()
    } else {
        network_lines_spec(entries, rows.drop_last()) + match network_line(entries, rows.last().0, rows.last().1) {
            Some(l) => seq![l],
            None => Seq::empty(),
        }
    }
}

/// A name outside the package, drawn after the branch lines.
fn external(line: &mut Strip, name: &String)
    ensures
        strip_view(*final(line)) == strip_view(*old(line)) + external_pieces(name@),
{
    let ghost start = strip_view(*line);
    line.add(name.clone(), Look::bold_hue(Hue::Blue));
    line.add_str(" ⟨external⟩", Look::in_hue(Hue::DarkGray));
    assert(strip_view(*line) =~= start + external_pieces(name@));
}

fn emphasis_of(hue: Hue, bold: bool) -> (l: Look)
    ensures
        l == emphasis(hue, bold),
{
    if bold {
        Look::bold_hue(hue)
    } else {
        Look::in_hue(hue)
    }
}

fn tag_of(hue: Hue) -> (l: Look)
    ensures
        l == tag_look(hue),
{
    Look { fg: Some(hue), bg: None, bold: false, dim: true }
}

/// The line for one row of the inheritance forest, if it draws one.
fn structure_line_of(entries: &StrMap<crate::structure::Entry>, row: &Row) -> (r: Option<Strip>)
    ensures
        match r {
            Some(s) => structure_line(*entries, row.prefix@, *row.node) == Some(strip_view(s)),
            None => structure_line(*entries, row.prefix@, *row.node) is None,
        },
{
    let mut line = Strip::one(row.prefix.clone(), Look::in_hue(Hue::Chrome));
    match &row.node.key {
        NodeKey::External(name) => {
            external(&mut line, name);
            Some(line)
        },
        NodeKey::Subject(q) => match entries.get(q.as_str()) {
            Some(e) => {
                let hue = color(e.status);
                let changed = e.status.is_change();
                let look = emphasis_of(hue, changed);
                line.add(joined(e.status.glyph(), " "), look);
                line.add(row.node.label.clone(), look);
                if e.mixins.len() > 0 {
                    line.add(joined(" +", join(&e.mixins, " +").as_str()), Look::in_hue(Hue::Blue));
                }
                line.add(joined("  ", e.subject.location().as_str()), Look::in_hue(Hue::DarkGray));
                if changed {
                    line.add(joined("  ", e.status.tag()), tag_of(hue));
                }
                assert(Some(strip_view(line)) =~~= structure_line(*entries, row.prefix@, *row.node));
                Some(line)
            },
            None => None,
        },
        NodeKey::Operation(_) => None,
    }
}

/// The line for one row of the call forest, if it draws one.
fn network_line_of(entries: &StrMap<crate::network::Entry>, row: &Row) -> (r: Option<Strip>)
    ensures
        match r {
            Some(s) => network_line(*entries, row.prefix@, *row.node) == Some(strip_view(s)),
            None => network_line(*entries, row.prefix@, *row.node) is None,
        },
{
    let mut line = Strip::one(row.prefix.clone(), Look::in_hue(Hue::Chrome));
    match &row.node.key {
        NodeKey::External(name) => {
            external(&mut line, name);
            Some(line)
        },
        NodeKey::Operation(cs) => match entries.get(cs.as_str()) {
            Some(e) => {
                let moved = row.node.edge.is_change();
                let changed = e.status.is_change();
                let hue = if moved {
                    edge_color(row.node.edge)
                } else {
                    color(e.status)
                };
                let look = emphasis_of(hue, changed || moved);
                line.add(joined(e.status.glyph(), " "), look);
                line.add(row.node.label.clone(), look);
                if e.operation.recursive {
                    line.add_str(" ↻", Look::in_hue(Hue::Blue));
                }
                match &row.node.note {
                    Some(n) => line.add(joined(" ", n.as_str()), Look::in_hue(Hue::DarkGray)),
                    None => {},
                }
                if row.node.repeat {
                    line.add_str(" ⋯", Look::in_hue(Hue::DarkGray));
                } else {
                    line.add(joined("  ", e.operation.location().as_str()), Look::in_hue(Hue::DarkGray));
                }
                if moved {
                    line.add(joined("  ", row.node.edge.tag()), tag_of(hue));
                }
                if changed {
                    line.add(joined("  ", e.status.tag()), tag_of(color(e.status)));
                }
                assert(Some(strip_view(line)) =~~= network_line(*entries, row.prefix@, *row.node));
                Some(line)
            },
            None => None,
        },
        NodeKey::Subject(_) => None,
    }
}

/// One line per node of the inheritance forest.
pub fn structure_rows(app: &App) -> (r: Vec<Strip>)
    ensures
        strips_view(r@) == structure_lines_spec(app.structure.entries, rows_of_roots(app.structure.roots@, 0, app.changes_only)),
{
    let rows = app.structure.rows(app.changes_only);
    let ghost rv = rows@.map_values(|w: Row| row_view(w));
    let mut r: Vec<Strip> = Vec::new();
    let mut i: usize = 0;
    while i < rows.len()
        invariant
            rv == rows@.map_values(|w: Row| row_view(w)),
            i <= rows.len(),
            strips_view(r@) == structure_lines_spec(app.structure.entries, rv.take(i as int)),
        decreases rows.len() - i,
    {
        let ghost before = strips_view(r@);
        proof {
            assert(rv.take(i + 1).drop_last() =~= rv.take(i as int));
            assert(rv.take(i + 1).last() == (rows@[i as int].prefix@, *rows@[i as int].node));
        }
        match structure_line_of(&app.structure.entries, &rows[i]) {
            Some(line) => {
                r.push(line);
                assert(strips_view(r@) =~= before.push(strip_view(line)));
            },
            None => {},
        }
        assert(strips_view(r@) =~= structure_lines_spec(app.structure.entries, rv.take(i + 1)));
        i = i + 1;
    }
    assert(rv.take(i as int) =~= rv);
    r
}

/// One line per node of the call forest.
pub fn network_rows(app: &App) -> (r: Vec<Strip>)
    ensures
        strips_view(r@) == network_lines_spec(app.network.entries, rows_of_roots(app.network.roots@, 0, app.changes_only)),
{
    let rows = app.network.rows(app.changes_only);
    let ghost rv = rows@.map_values(|w: Row| row_view(w));
    let mut r: Vec<Strip> = Vec::new();
    let mut i: usize = 0;
    while i < rows.len()
        invariant
            rv == rows@.map_values(|w: Row| row_view(w)),
            i <= rows.len(),
            strips_view(r@) == network_lines_spec(app.network.entries, rv.take(i as int)),
        decreases rows.len() - i,
    {
        let ghost before = strips_view(r@);
        proof {
            assert(rv.take(i + 1).drop_last() =~= rv.take(i as int));
            assert(rv.take(i + 1).last() == (rows@[i as int].prefix@, *rows@[i as int].node));
        }
        match network_line_of(&app.network.entries, &rows[i]) {
            Some(line) => {
                r.push(line);
                assert(strips_view(r@) =~= before.push(strip_view(line)));
            },
            None => {},
        }
        assert(strips_view(r@) =~= network_lines_spec(app.network.entries, rv.take(i + 1)));
        i = i + 1;
    }
    assert(rv.take(i as int) =~= rv);
    r
}

// ------------------------------------------------------------------- feed --

/// The first line of a change log entry.
pub open spec fn headline_spec(status: Status, name: Seq<char>, module: Seq<char>) -> LineView {
    seq![
        (" "@ + spec_glyph(status) + " "@ + spec_pad(spec_status_tag(status), 9) + " "@, spec_bold(spec_color(status))),
        (name, spec_in(Hue::White)),
        ("  "@ + module, spec_in(Hue::DarkGray)),
    ]
}

/// Detail lines, drawn in grey.
pub open spec fn detail_lines(ls: Seq<Seq<char>>) -> Seq<LineView> {
    ls.map_values(|l: Seq<char>| seq![(l, spec_in(Hue::Gray))])
}

/// The `+gained -lost` line, coloured, when anything was gained or lost.
pub open spec fn gained_lost_spec(gained: Seq<Seq<char>>, lost: Seq<Seq<char>>) -> Seq<LineView> {
    if gained.len() == 0 && lost.len() == 0 {
        Seq::empty()
    } else {
        seq![
            seq![(crate::report::DETAIL@, spec_plain())] + gained.map_values(|g: Seq<char>| ("+"@ + g + " "@, spec_in(Hue::Green)))
                + lost.map_values(|l: Seq<char>| ("-"@ + l + " "@, spec_in(Hue::Red))),
        ]
    }
}

/// The change log entry for one class.
pub open spec fn structure_report_spec(e: crate::structure::EntryView) -> Seq<LineView> {
    seq![headline_spec(e.status, spec_strip_module(e.subject.qualname, e.subject.module, e.subject.name), e.subject.module)]
        + detail_lines(structure_details_text(e)) + gained_lost_spec(e.gained, e.lost)
}

/// The change log entry for one operation.
pub open spec fn network_report_spec(e: crate::network::EntryView) -> Seq<LineView> {
    seq![headline_spec(e.status, display(e.operation) + signature_text(e.operation.params), e.operation.module)]
        + detail_lines(network_details_text(e)) + gained_lost_spec(e.gained, e.lost) + detail_lines(overrides_text(e))
}

pub open spec fn structure_feed_spec(vs: Seq<crate::structure::Entry>, idx: Seq<int>) -> Seq<LineView>
    decreases idx.len(),
{
    if idx.len() == 0 {
        Seq::empty()
    } else {
        structure_feed_spec(vs, idx.drop_last()) + structure_report_spec(vs[idx.last()]@)
    }
}

pub open spec fn network_feed_spec(vs: Seq<crate::network::Entry>, idx: Seq<int>) -> Seq<LineView>
    decreases idx.len(),
{
    if idx.len() == 0 {
        Seq::empty()
    } else {
        network_feed_spec(vs, idx.drop_last()) + network_report_spec(vs[idx.last()]@)
    }
}

fn headline(status: Status, name: String, module: &str) -> (s: Strip)
    ensures
        strip_view(s) == headline_spec(status, name@, module@),
{
    let mut lead = owned(" ");
    lead.append(status.glyph());
    lead.append(" ");
    lead.append(pad(status.tag(), 9).as_str());
    lead.append(" ");
    let mut s = Strip::blank();
    s.add(lead, Look::bold_hue(color(status)));
    s.add(name, Look::in_hue(Hue::White));
    s.add(joined("  ", module), Look::in_hue(Hue::DarkGray));
    assert(strip_view(s) =~~= headline_spec(status, name@, module@));
    s
}

/// Append detail lines, in grey.
fn details_into(out: &mut Vec<Strip>, ls: Vec<String>)
    ensures
        strips_view(final(out)@) == strips_view(old(out)@) + detail_lines(names(ls@)),
{
    let ghost start = strips_view(out@);
    let mut i: usize = 0;
    while i < ls.len()
        invariant
            i <= ls.len(),
            strips_view(out@) == start + detail_lines(names(ls@).take(i as int)),
        decreases ls.len() - i,
    {
        let ghost before = strips_view(out@);
        let line = Strip::one(ls[i].clone(), Look::in_hue(Hue::Gray));
        out.push(line);
        proof {
            assert(strips_view(out@) =~= before.push(strip_view(line)));
            assert(names(ls@).take(i + 1) =~= names(ls@).take(i as int).push(ls@[i as int]@));
            assert(detail_lines(names(ls@).take(i + 1)) =~= detail_lines(names(ls@).take(i as int)).push(
                seq![(ls@[i as int]@, spec_in(Hue::Gray))],
            ));
        }
        i = i + 1;
    }
    assert(names(ls@).take(i as int) =~= names(ls@));
}

/// Append the coloured `+gained -lost` line, when there is one.
fn gained_lost(out: &mut Vec<Strip>, gained: &Vec<String>, lost: &Vec<String>)
    ensures
        strips_view(final(out)@) == strips_view(old(out)@) + gained_lost_spec(names(gained@), names(lost@)),
{
    let ghost start = strips_view(out@);
    if gained.len() == 0 && lost.len() == 0 {
        assert(strips_view(out@) =~= start + gained_lost_spec(names(gained@), names(lost@)));
        return;
    }
    let mut line = Strip::one(owned(crate::report::DETAIL), Look::plain());
    let ghost lead = strip_view(line);
    let mut i: usize = 0;
    while i < gained.len()
        invariant
            i <= gained.len(),
            strip_view(line) == lead + names(gained@).take(i as int).map_values(
                |g: Seq<char>| ("+"@ + g + " "@, spec_in(Hue::Green)),
            ),
        decreases gained.len() - i,
    {
        let ghost before = strip_view(line);
        let mut t = joined("+", gained[i].as_str());
        t.append(" ");
        line.add(t, Look::in_hue(Hue::Green));
        proof {
            assert(names(gained@).take(i + 1) =~= names(gained@).take(i as int).push(gained@[i as int]@));
            assert(strip_view(line) =~= lead + names(gained@).take(i + 1).map_values(
                |g: Seq<char>| ("+"@ + g + " "@, spec_in(Hue::Green)),
            ));
        }
        i = i + 1;
    }
    assert(names(gained@).take(i as int) =~= names(gained@));
    let ghost mid = strip_view(line);
    let mut j: usize = 0;
    while j < lost.len()
        invariant
            j <= lost.len(),
            strip_view(line) == mid + names(lost@).take(j as int).map_values(
                |l: Seq<char>| ("-"@ + l + " "@, spec_in(Hue::Red)),
            ),
        decreases lost.len() - j,
    {
        let mut t = joined("-", lost[j].as_str());
        t.append(" ");
        line.add(t, Look::in_hue(Hue::Red));
        proof {
            assert(names(lost@).take(j + 1) =~= names(lost@).take(j as int).push(lost@[j as int]@));
            assert(strip_view(line) =~= mid + names(lost@).take(j + 1).map_values(
                |l: Seq<char>| ("-"@ + l + " "@, spec_in(Hue::Red)),
            ));
        }
        j = j + 1;
    }
    assert(names(lost@).take(j as int) =~= names(lost@));
    let ghost lv = strip_view(line);
    out.push(line);
    assert(strips_view(out@) =~~= start + gained_lost_spec(names(gained@), names(lost@)));
}

/// The change log entry for one class.
fn structure_report(e: &crate::structure::Entry, out: &mut Vec<Strip>)
    ensures
        strips_view(final(out)@) == strips_view(old(out)@) + structure_report_spec(e@),
{
    let ghost start = strips_view(out@);
    out.push(headline(e.status, e.subject.display_name(), e.subject.module.as_str()));
    let mut ls: Vec<String> = Vec::new();
    structure_details(e, &mut ls);
    assert(names(ls@) =~= structure_details_text(e@));
    details_into(out, ls);
    gained_lost(out, &e.gained, &e.lost);
    assert(strips_view(out@) =~~= start + structure_report_spec(e@));
}

/// The change log entry for one operation.
fn network_report(e: &crate::network::Entry, out: &mut Vec<Strip>)
    ensures
        strips_view(final(out)@) == strips_view(old(out)@) + network_report_spec(e@),
{
    let ghost start = strips_view(out@);
    let op = &e.operation;
    let mut name = op.display_name();
    name.append(op.signature().as_str());
    proof {
        reveal_strlit("(");
        reveal_strlit(")");
    }
    out.push(headline(e.status, name, op.module.as_str()));
    let mut ls: Vec<String> = Vec::new();
    network_details(e, &mut ls);
    assert(names(ls@) =~= network_details_text(e@));
    details_into(out, ls);
    gained_lost(out, &e.gained, &e.lost);
    let mut tail: Vec<String> = Vec::new();
    overrides_line(e, &mut tail);
    assert(names(tail@) =~= overrides_text(e@));
    details_into(out, tail);
    assert(strips_view(out@) =~~= start + network_report_spec(e@));
}

/// The change log of the view showing, and how many entries it holds.
pub open spec fn feed_spec(app: App) -> (Seq<LineView>, nat) {
    match app.view {
        View::Structure => {
            let idx = crate::structure::feed_seq(app.structure.entries);
            (structure_feed_spec(app.structure.entries.value_list(), idx), idx.len())
        },
        View::Network => {
            let idx = crate::network::feed_seq(app.network.entries);
            (network_feed_spec(app.network.entries.value_list(), idx), idx.len())
        },
    }
}

/// The tree of the view showing.
pub open spec fn tree_spec(app: App) -> Seq<LineView> {
    match app.view {
        View::Structure => structure_lines_spec(app.structure.entries, rows_of_roots(app.structure.roots@, 0, app.changes_only)),
        View::Network => network_lines_spec(app.network.entries, rows_of_roots(app.network.roots@, 0, app.changes_only)),
    }
}

/// The change log of the view showing, and how many entries it holds.
pub fn feed_lines(app: &App) -> (r: (Vec<Strip>, usize))
    ensures
        (strips_view(r.0@), r.1 as nat) == feed_spec(*app),
{
    let mut out: Vec<Strip> = Vec::new();
    match app.view {
        View::Structure => {
            let feed = app.structure.feed();
            let ghost idx = crate::structure::feed_seq(app.structure.entries);
            let mut j: usize = 0;
            while j < feed.len()
                invariant
                    idx == crate::structure::feed_seq(app.structure.entries),
                    feed@.len() == idx.len(),
                    forall|t: int| 0 <= t < feed@.len() ==> *feed@[t] == app.structure.entries.value_list()[#[trigger] idx[t]],
                    j <= feed.len(),
                    strips_view(out@) == structure_feed_spec(app.structure.entries.value_list(), idx.take(j as int)),
                decreases feed.len() - j,
            {
                structure_report(feed[j], &mut out);
                proof {
                    assert(idx.take(j + 1).drop_last() =~= idx.take(j as int));
                    assert(*feed@[j as int] == app.structure.entries.value_list()[idx[j as int]]);
                }
                j = j + 1;
            }
            assert(idx.take(j as int) =~= idx);
            (out, feed.len())
        },
        View::Network => {
            let feed = app.network.feed();
            let ghost idx = crate::network::feed_seq(app.network.entries);
            let mut j: usize = 0;
            while j < feed.len()
                invariant
                    idx == crate::network::feed_seq(app.network.entries),
                    feed@.len() == idx.len(),
                    forall|t: int| 0 <= t < feed@.len() ==> *feed@[t] == app.network.entries.value_list()[#[trigger] idx[t]],
                    j <= feed.len(),
                    strips_view(out@) == network_feed_spec(app.network.entries.value_list(), idx.take(j as int)),
                decreases feed.len() - j,
            {
                network_report(feed[j], &mut out);
                proof {
                    assert(idx.take(j + 1).drop_last() =~= idx.take(j as int));
                    assert(*feed@[j as int] == app.network.entries.value_list()[idx[j as int]]);
                }
                j = j + 1;
            }
            assert(idx.take(j as int) =~= idx);
            (out, feed.len())
        },
    }
}

/// The tree of the view showing.
pub fn tree_lines(app: &App) -> (r: Vec<Strip>)
    ensures
        strips_view(r@) == tree_spec(*app),
{
    match app.view {
        View::Structure => structure_rows(app),
        View::Network => network_rows(app),
    }
}

// ------------------------------------------------------------------ panes --

/// Where a pane's scroll may sit: never so far that less than a screenful
/// is left.
pub open spec fn clamp_scroll(scroll: usize, len: nat, height: nat) -> usize {
    let last = if len >= (if height > 1 { height } else { 1 }) {
        len - (if height > 1 { height } else { 1 })
    } else {
        0
    };
    if scroll <= last {
        scroll
    } else {
        last as usize
    }
}

/// The lines a pane of `height` shows from `from` on.
pub open spec fn window(lines: Seq<LineView>, from: nat, height: nat) -> Seq<LineView> {
    let lo = if from <= lines.len() { from } else { lines.len() };
    let hi = if from + height <= lines.len() { from + height } else { lines.len() };
    lines.subrange(lo as int, hi as int)
}

/// A pane never scrolls past its end: the clamped scroll is no further down
/// than the one asked for, clamping it again changes nothing, and the pane
/// then shows a full page of lines, or every line when there are fewer.
pub proof fn law_clamped_scroll_fills_the_pane(scroll: usize, lines: Seq<LineView>, height: nat)
    requires
        height >= 1,
        lines.len() <= usize::MAX,
    ensures
        clamp_scroll(scroll, lines.len(), height) <= scroll,
        clamp_scroll(clamp_scroll(scroll, lines.len(), height), lines.len(), height) == clamp_scroll(
            scroll,
            lines.len(),
            height,
        ),
        window(lines, clamp_scroll(scroll, lines.len(), height) as nat, height).len() == if lines.len() >= height {
            height
        } else {
            lines.len()
        },
{
}

fn clamp_of(scroll: usize, len: usize, height: usize) -> (r: usize)
    ensures
        r == clamp_scroll(scroll, len as nat, height as nat),
{
    let room = if height > 1 { height } else { 1 };
    let last = len.saturating_sub(room);
    if scroll <= last {
        scroll
    } else {
        last
    }
}

/// The lines of a pane from `from` on, as many as fit.
fn window_of(lines: Vec<Strip>, from: usize, height: usize) -> (r: Vec<Strip>)
    ensures
        strips_view(r@) == window(strips_view(lines@), from as nat, height as nat),
{
    let n = lines.len();
    let lo = if from <= n { from } else { n };
    let hi = if height <= n - lo { lo + height } else { n };
    let mut lines = lines;
    let ghost all = lines@;
    let mut tail = lines.split_off(lo);
    assert(tail@ == all.subrange(lo as int, n as int));
    tail.truncate(hi - lo);
    assert(tail@ =~= all.subrange(lo as int, hi as int));
    assert(strips_view(tail@) =~= window(strips_view(all), from as nat, height as nat));
    tail
}

/// The title of the tree pane.
pub open spec fn tree_title(view: View, changes_only: bool) -> Seq<char> {
    " "@ + (match view {
        View::Structure => "INHERITANCE STRUCTURE"@,
        View::Network => "CALL TRAFFIC · from entry points"@,
    }) + " "@ + if changes_only {
        "· changes only "@
    } else {
        Seq::empty()
    }
}

/// What the tree pane says when it has nothing to draw.
pub open spec fn tree_placeholder(changes_only: bool) -> LineView {
    seq![(if changes_only {
        "  no deviation from baseline"@
    } else {
        "  nothing to show"@
    }, spec_in(Hue::DarkGray))]
}

/// The tree pane at `height` lines: its title and the lines it shows. The
/// scroll is first pulled back so it never runs past the end.
pub fn tree_pane(app: &mut App, lines: Vec<Strip>, height: usize) -> (r: (String, Vec<Strip>))
    ensures
        final(app).tree_scroll == clamp_scroll(old(app).tree_scroll, lines@.len() as nat, height as nat),
        final(app).feed_scroll == old(app).feed_scroll,
        final(app).help_scroll == old(app).help_scroll,
        final(app).view == old(app).view,
        final(app).changes_only == old(app).changes_only,
        final(app).focus == old(app).focus,
        final(app).help == old(app).help,
        crate::app::same_but_seat(*old(app), *final(app)),
        r.0@ == tree_title(old(app).view, old(app).changes_only),
        strips_view(r.1@) == window(
            if lines@.len() == 0 {
                seq![tree_placeholder(old(app).changes_only)]
            } else {
                strips_view(lines@)
            },
            final(app).tree_scroll as nat,
            height as nat,
        ),
{
    app.tree_scroll = clamp_of(app.tree_scroll, lines.len(), height);
    let mut lines = lines;
    if lines.len() == 0 {
        let text = if app.changes_only {
            "  no deviation from baseline"
        } else {
            "  nothing to show"
        };
        lines.push(Strip::one(owned(text), Look::in_hue(Hue::DarkGray)));
        assert(strips_view(lines@) =~= seq![tree_placeholder(app.changes_only)]);
    }
    let shown = window_of(lines, app.tree_scroll, height);
    let mut title = owned(" ");
    title.append(match app.view {
        View::Structure => "INHERITANCE STRUCTURE",
        View::Network => "CALL TRAFFIC · from entry points",
    });
    title.append(" ");
    if app.changes_only {
        title.append("· changes only ");
    }
    (title, shown)
}

/// What the feed pane says when nothing changed.
pub open spec fn feed_placeholder() -> LineView {
    seq![(" baseline holds — no change detected"@, spec_in(Hue::DarkGray))]
}

/// The feed pane at `height` lines: its title and the lines it shows.
pub fn feed_pane(app: &mut App, lines: Vec<Strip>, items: usize, height: usize) -> (r: (String, Vec<Strip>))
    ensures
        ({
            let full = if lines@.len() == 0 {
                seq![feed_placeholder()]
            } else {
                strips_view(lines@)
            };
            &&& final(app).feed_scroll == clamp_scroll(old(app).feed_scroll, full.len(), height as nat)
            &&& strips_view(r.1@) == window(full, final(app).feed_scroll as nat, height as nat)
        }),
        final(app).tree_scroll == old(app).tree_scroll,
        final(app).help_scroll == old(app).help_scroll,
        final(app).view == old(app).view,
        final(app).changes_only == old(app).changes_only,
        final(app).focus == old(app).focus,
        final(app).help == old(app).help,
        crate::app::same_but_seat(*old(app), *final(app)),
        r.0@ == " SITREP · "@ + spec_decimal(items as nat) + " items "@,
{
    let mut lines = lines;
    if lines.len() == 0 {
        lines.push(Strip::one(owned(" baseline holds — no change detected"), Look::in_hue(Hue::DarkGray)));
        assert(strips_view(lines@) =~= seq![feed_placeholder()]);
    }
    app.feed_scroll = clamp_of(app.feed_scroll, lines.len(), height);
    let shown = window_of(lines, app.feed_scroll, height);
    let mut title = owned(" SITREP · ");
    title.append(decimal(items).as_str());
    title.append(" items ");
    (title, shown)
}

/// The manual pane, `width` columns by `height` lines: its title and the
/// lines it shows.
pub fn manual_pane(app: &mut App, width: u16, height: usize) -> (r: (String, Vec<Strip>))
    ensures
        ({
            let full = crate::manual::pages_spec(crate::manual::ruled_width(width));
            let at = final(app).help_scroll as nat;
            let shown: nat = if at + height <= full.len() {
                (at + height) as nat
            } else {
                full.len()
            };
            &&& final(app).help_scroll == clamp_scroll(old(app).help_scroll, full.len(), height as nat)
            &&& strips_view(r.1@) == window(full, at, height as nat)
            &&& r.0@ == " FIELD MANUAL · reading the floor · "@ + spec_decimal(shown) + "/"@ + spec_decimal(full.len())
                + " "@
        }),
        final(app).tree_scroll == old(app).tree_scroll,
        final(app).feed_scroll == old(app).feed_scroll,
        final(app).view == old(app).view,
        final(app).changes_only == old(app).changes_only,
        final(app).focus == old(app).focus,
        final(app).help == old(app).help,
        crate::app::same_but_seat(*old(app), *final(app)),
{
    let lines = crate::manual::pages(width);
    let total = lines.len();
    app.help_scroll = clamp_of(app.help_scroll, total, height);
    let shown = if height <= total - app.help_scroll {
        app.help_scroll + height
    } else {
        total
    };
    let view = window_of(lines, app.help_scroll, height);
    let mut title = owned(" FIELD MANUAL · reading the floor · ");
    title.append(decimal(shown).as_str());
    title.append("/");
    title.append(decimal(total).as_str());
    title.append(" ");
    (title, view)
}

/// What the body of the floor shows.
pub enum Body {
    /// The field manual across the whole body: its title and visible lines.
    Manual(String, Vec<Strip>),
    /// The tree pane beside the feed pane, each as title and visible lines.
    Panes((String, Vec<Strip>), (String, Vec<Strip>)),
}

/// Lay out the body: the manual takes it over while help is open; otherwise
/// the tree and the feed share it, each `height` lines tall.
pub fn body(app: &mut App, width: u16, height: usize) -> (r: Body)
    ensures
        old(app).help <==> r is Manual,
        final(app).view == old(app).view,
        final(app).changes_only == old(app).changes_only,
        final(app).focus == old(app).focus,
        final(app).help == old(app).help,
        crate::app::same_but_seat(*old(app), *final(app)),
        r matches Body::Manual(title, shown) ==> {
            let full = crate::manual::pages_spec(crate::manual::ruled_width(width));
            let at = final(app).help_scroll as nat;
            let end: nat = if at + height <= full.len() {
                (at + height) as nat
            } else {
                full.len()
            };
            &&& final(app).help_scroll == clamp_scroll(old(app).help_scroll, full.len(), height as nat)
            &&& strips_view(shown@) == window(full, at, height as nat)
            &&& title@ == " FIELD MANUAL · reading the floor · "@ + spec_decimal(end) + "/"@ + spec_decimal(full.len())
                + " "@
            &&& final(app).tree_scroll == old(app).tree_scroll
            &&& final(app).feed_scroll == old(app).feed_scroll
        },
        r matches Body::Panes(tree, feed) ==> {
            let rows = tree_spec(*old(app));
            let all_rows = if rows.len() == 0 {
                seq![tree_placeholder(old(app).changes_only)]
            } else {
                rows
            };
            let items = feed_spec(*old(app));
            let all_items = if items.0.len() == 0 {
                seq![feed_placeholder()]
            } else {
                items.0
            };
            &&& tree.0@ == tree_title(old(app).view, old(app).changes_only)
            &&& final(app).tree_scroll == clamp_scroll(old(app).tree_scroll, rows.len(), height as nat)
            &&& strips_view(tree.1@) == window(all_rows, final(app).tree_scroll as nat, height as nat)
            &&& feed.0@ == " SITREP · "@ + spec_decimal(items.1) + " items "@
            &&& final(app).feed_scroll == clamp_scroll(old(app).feed_scroll, all_items.len(), height as nat)
            &&& strips_view(feed.1@) == window(all_items, final(app).feed_scroll as nat, height as nat)
            &&& final(app).help_scroll == old(app).help_scroll
        },
{
    if app.help {
        let (title, shown) = manual_pane(app, width, height);
        Body::Manual(title, shown)
    } else {
        let rows = tree_lines(app);
        let (items, count) = feed_lines(app);
        let tree = tree_pane(app, rows, height);
        let feed = feed_pane(app, items, count, height);
        Body::Panes(tree, feed)
    }
}

/// The footer: an error when there is one, else the keys.
pub open spec fn footer_spec(app: App) -> LineView {
    match app.error {
        Some(e) => seq![(" ! "@ + e@, spec_bold(Hue::Red))],
        None => if app.help {
            seq![(" ↑↓/jk scroll · g/G top/bottom · ? or h close the manual · q quit"@, spec_in(Hue::DarkGray))]
        } else {
            seq![(
                " q quit · r resync · 1/2 view · c changes-only ["@ + (if app.changes_only {
                    "on"@
                } else {
                    "off"@
                }) + "] · tab pane · ↑↓/jk scroll · ? help"@,
                spec_in(Hue::DarkGray),
            )]
        },
    }
}

pub fn footer(app: &App) -> (s: Strip)
    ensures
        strip_view(s) == footer_spec(*app),
{
    match &app.error {
        Some(e) => Strip::one(joined(" ! ", e.as_str()), Look::bold_hue(Hue::Red)),
        None => {
            if app.help {
                Strip::one(
                    owned(" ↑↓/jk scroll · g/G top/bottom · ? or h close the manual · q quit"),
                    Look::in_hue(Hue::DarkGray),
                )
            } else {
                let mut t = owned(" q quit · r resync · 1/2 view · c changes-only [");
                t.append(if app.changes_only {
                    "on"
                } else {
                    "off"
                });
                t.append("] · tab pane · ↑↓/jk scroll · ? help");
                Strip::one(t, Look::in_hue(Hue::DarkGray))
            }
        },
    }
}

} // verus!
