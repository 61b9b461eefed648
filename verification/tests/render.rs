//! Rendering: the lines the floor draws, with their colours, and the field
//! manual's own layout rules. No terminal is involved.

use watch_floor::app::{App, Command, Key, View};
use watch_floor::collection::{absorb, baseline_label, in_skipped_dir, module_of, Target};
use watch_floor::dossier::Dossier;
use watch_floor::floor;
use watch_floor::floor::Body;
use watch_floor::intercept::Interceptor;
use watch_floor::look::{Hue, Strip};
use watch_floor::manual;
use watch_floor::network::Network;
use watch_floor::sitrep::{Edge, Status};
use watch_floor::structure::Structure;

// ---------------------------------------------------------------- fixture --

/// A package named `pkg` held in memory: the files of the working tree, and
/// those committed as the baseline once `commit` has run.
struct Fixture {
    baseline: Option<Vec<(String, String)>>,
    tree: Vec<(String, String)>,
}

#[allow(dead_code)]
impl Fixture {
    fn new() -> Fixture {
        Fixture { baseline: None, tree: Vec::new() }
    }

    /// Write a file, relative to the repository root.
    fn write(&mut self, rel: &str, contents: &str) -> &mut Self {
        self.tree.retain(|(path, _)| path != rel);
        self.tree.push((rel.to_string(), contents.to_string()));
        self
    }

    fn remove(&mut self, rel: &str) -> &mut Self {
        self.tree.retain(|(path, _)| path != rel);
        self
    }

    /// Commit everything in the working tree: it becomes the baseline.
    fn commit(&mut self) -> &mut Self {
        self.baseline = Some(self.tree.clone());
        self
    }

    /// Both snapshots: `(baseline, current)`.
    fn snapshots(&self) -> (Dossier, Dossier) {
        let mut interceptor = Interceptor::new().expect("interceptor");
        let baseline = match &self.baseline {
            Some(files) => survey(&baseline_label(&Some(HEAD.to_string())), files, &mut interceptor),
            None => Dossier::new(&baseline_label(&None)),
        };
        let current = survey("working tree", &self.tree, &mut interceptor);
        (baseline, current)
    }

    fn structure(&self) -> Structure {
        let (baseline, current) = self.snapshots();
        Structure::compile(&baseline, &current)
    }

    fn network(&self) -> Network {
        let (baseline, current) = self.snapshots();
        Network::compile(&baseline, &current)
    }
}

/// The short object id the baseline is committed under.
const HEAD: &str = "0000000";

/// Read the Python files of `pkg/` the way the collection does: in path
/// order, skipping the directories the walk skips, then wiring the calls.
fn survey(label: &str, files: &[(String, String)], interceptor: &mut Interceptor) -> Dossier {
    let mut files: Vec<&(String, String)> = files.iter().collect();
    files.sort();
    let mut dossier = Dossier::new(label);
    for (path, source) in files {
        let Some(rel) = path.strip_prefix("pkg/") else {
            continue;
        };
        if !rel.ends_with(".py") || in_skipped_dir(rel) {
            continue;
        }
        let module = module_of(rel, "pkg");
        absorb(&mut dossier, interceptor, source, &module, path);
    }
    dossier.wire();
    dossier
}

/// A one-file package, committed, with the working tree then replaced.
/// Returns the compiled views for the before/after pair.
#[allow(dead_code)]
fn diff_one_file(before: &str, after: &str) -> (Structure, Network) {
    let mut fx = Fixture::new();
    fx.write("pkg/__init__.py", "");
    fx.write("pkg/mod.py", before);
    fx.commit();
    fx.write("pkg/mod.py", after);
    let (baseline, current) = fx.snapshots();
    (Structure::compile(&baseline, &current), Network::compile(&baseline, &current))
}

// --------------------------------------------------------------- fixtures

/// The baseline package: Agent.brief calls Channel.send.
const BEFORE: &str = "\
class Channel:
    def open(self): ...
    def send(self, payload):
        self.open()

class Agent(Channel):
    def brief(self):
        self.send(\"orders\")

def run():
    a = Agent()
    a.brief()
";

/// The working tree: Channel gains close(), brief reroutes onto it, and a new
/// entry point `sweep` appears above `run`.
const AFTER: &str = "\
class Channel:
    def open(self): ...
    def close(self): ...
    def send(self, payload):
        self.open()

class Agent(Channel):
    def brief(self):
        self.close()

def run():
    a = Agent()
    a.brief()

def sweep():
    run()
";

/// An App on the package `pkg` of a repository, holding both snapshots.
fn app_on(fx: &Fixture, view: View) -> App {
    let target = Target {
        repo_root: "/work/repo".to_string(),
        pkg_dir: "/work/repo/pkg".to_string(),
        pkg_rel: "pkg".to_string(),
        pkg_name: "pkg".to_string(),
    };
    let (baseline, current) = fx.snapshots();
    let mut app = App::new(target, Interceptor::new().expect("interceptor"), view, false);
    app.take_baseline(baseline, Some("0000000".to_string()));
    app.take_current(current);
    app.recompile(0);
    app
}

/// A committed package whose working tree has drifted, plus an App on it.
fn watched(view: View) -> (Fixture, App) {
    let mut fx = Fixture::new();
    fx.write("pkg/__init__.py", "");
    fx.write("pkg/core.py", BEFORE);
    fx.commit();
    fx.write("pkg/core.py", AFTER);
    let app = app_on(&fx, view);
    (fx, app)
}

// ------------------------------------------------------------- line tools

fn text_of(line: &Strip) -> String {
    line.text()
}

fn width_of(line: &Strip) -> usize {
    line.text().chars().count()
}

fn texts(lines: &[Strip]) -> Vec<String> {
    lines.iter().map(text_of).collect()
}

fn flat(lines: &[Strip]) -> String {
    texts(lines).join("\n")
}

/// Exactly this line, ignoring trailing padding.
fn assert_has_line(lines: &[Strip], expected: &str) {
    assert!(
        texts(lines).iter().any(|line| line.trim_end() == expected),
        "expected a line {expected:?}, got:\n{}",
        flat(lines)
    );
}

/// The first piece of `line` whose text starts with `needle`.
fn piece_starting<'a>(line: &'a Strip, needle: &str) -> &'a watch_floor::look::Piece {
    line.pieces
        .iter()
        .find(|p| p.text.starts_with(needle))
        .unwrap_or_else(|| panic!("no piece starts with {needle:?} in {:?}", text_of(line)))
}

fn line_with<'a>(lines: &'a [Strip], needle: &str) -> &'a Strip {
    lines
        .iter()
        .find(|l| text_of(l).contains(needle))
        .unwrap_or_else(|| panic!("no line contains {needle:?}:\n{}", flat(lines)))
}

// ------------------------------------------------------------------- views

#[test]
fn structure_view_names_the_target_package_and_every_class() {
    let (_fx, mut app) = watched(View::Structure);
    let header = floor::header(&app, 0);
    assert!(
        text_of(&header[0]).contains("target pkg  (pkg/)"),
        "the header names the package under watch, got {:?}",
        text_of(&header[0])
    );
    let lines = floor::tree_lines(&app);
    let (title, shown) = floor::tree_pane(&mut app, lines, 20);
    assert!(
        title.contains("INHERITANCE STRUCTURE"),
        "the tree pane is titled for the structure view, got {title:?}"
    );
    // Channel gained close(), Agent is untouched and hangs off Channel.
    assert_has_line(&shown, "object ⟨external⟩");
    assert_has_line(&shown, "  └─ * Channel  pkg.core:1  AMENDED");
    assert_has_line(&shown, "     └─ · Agent  pkg.core:7");
    // The SITREP explains the one change rather than just naming it.
    let (feed, _) = floor::feed_lines(&app);
    assert!(
        flat(&feed).contains("* AMENDED   Channel  pkg.core"),
        "the feed reports the amended class:\n{}",
        flat(&feed)
    );
}

#[test]
fn traffic_view_names_operations_and_tags_the_links_that_moved() {
    let (_fx, mut app) = watched(View::Network);
    let lines = floor::tree_lines(&app);
    let (title, shown) = floor::tree_pane(&mut app, lines, 20);
    assert!(
        title.contains("CALL TRAFFIC · from entry points"),
        "the tree pane is titled for the traffic view, got {title:?}"
    );
    // sweep is the new entry point; brief swapped send for close.
    assert_has_line(&shown, "+ sweep  pkg.core:15  ACTIVATED");
    assert_has_line(&shown, "  └─ · run  pkg.core:11");
    assert_has_line(&shown, "     └─ ~ Agent.brief ?  pkg.core:8  REROUTED");
    assert_has_line(
        &shown,
        "        ├─ + Channel.close  pkg.core:3  NEW TRAFFIC  ACTIVATED",
    );
    assert_has_line(&shown, "        └─ · Channel.send  pkg.core:4  WENT DARK");
}

#[test]
fn a_changed_link_colours_the_row_even_when_the_operation_itself_is_nominal() {
    let (_fx, app) = watched(View::Network);
    let lines = floor::tree_lines(&app);

    let sweep = piece_starting(line_with(&lines, "+ sweep"), "+");
    assert_eq!(sweep.look.fg, Some(Hue::Green), "ACTIVATED is drawn green");
    assert!(sweep.look.bold, "a changed node is bold");

    // Channel.send is NOMINAL, but the link to it went dark: the edge wins.
    let row = line_with(&lines, "Channel.send");
    let glyph = piece_starting(row, "·");
    assert_eq!(
        glyph.look.fg,
        Some(Hue::Red),
        "WENT DARK recolours the whole row red, not just the tag"
    );
    assert!(
        glyph.look.bold,
        "a changed link is bold even on an unchanged operation"
    );
    let tag = row
        .pieces
        .iter()
        .find(|p| p.text.contains("WENT DARK"))
        .expect("the tag is drawn");
    assert_eq!(tag.look.fg, Some(Hue::Red));
}

#[test]
fn changes_only_prunes_branches_that_lead_to_no_change() {
    let (_fx, mut app) = watched(View::Network);
    app.changes_only = true;
    let lines = floor::tree_lines(&app);
    let (title, shown) = floor::tree_pane(&mut app, lines, 20);
    let shown = flat(&shown);

    assert!(
        title.contains("· changes only"),
        "the pane title says the tree is filtered, got {title:?}"
    );
    // Channel.open is only reachable under Channel.send, and nothing about it
    // moved, so the filter drops it while keeping the rerouted branch.
    assert!(
        !shown.contains("Channel.open"),
        "an untouched leaf survived the filter:\n{shown}"
    );
    assert!(shown.contains("Agent.brief"), "the rerouted branch stays");
    assert!(
        text_of(&floor::footer(&app)).contains("c changes-only [on]"),
        "the footer reports the filter state"
    );
}

#[test]
fn an_unchanged_package_says_so_instead_of_drawing_an_empty_pane() {
    let mut fx = Fixture::new();
    fx.write("pkg/__init__.py", "");
    fx.write("pkg/core.py", BEFORE);
    fx.commit();
    let mut app = app_on(&fx, View::Structure);
    app.changes_only = true;
    let lines = floor::tree_lines(&app);
    let (_, tree) = floor::tree_pane(&mut app, lines, 20);
    let (feed, items) = floor::feed_lines(&app);
    let (feed_title, feed) = floor::feed_pane(&mut app, feed, items, 20);

    assert!(
        flat(&tree).contains("no deviation from baseline"),
        "the tree pane explains why it is empty:\n{}",
        flat(&tree)
    );
    assert!(
        flat(&feed).contains("baseline holds — no change detected"),
        "the feed pane explains why it is empty:\n{}",
        flat(&feed)
    );
    assert!(
        feed_title.contains("SITREP · 0 items"),
        "the feed title counts zero items: {feed_title:?}"
    );
}

#[test]
fn opening_the_manual_replaces_both_panes_and_the_footer() {
    let (_fx, mut app) = watched(View::Structure);
    match floor::body(&mut app, 118, 18) {
        Body::Panes(_, (feed_title, _)) => {
            assert!(feed_title.contains("SITREP"), "the feed is up with help closed")
        }
        Body::Manual(..) => panic!("the manual is not drawn until it is asked for"),
    }
    let closed = text_of(&floor::footer(&app));
    assert!(
        !closed.contains("close the manual"),
        "the footer offers the floor's keys while the manual is closed"
    );

    app.help = true;
    let (title, shown) = match floor::body(&mut app, 118, 18) {
        Body::Manual(title, shown) => (title, shown),
        Body::Panes(..) => panic!("the manual takes over the whole body, the feed included"),
    };
    assert!(!title.contains("SITREP"), "the manual takes over the whole body");
    assert!(
        title.contains("FIELD MANUAL · reading the floor · "),
        "the manual heading appears: {title:?}"
    );
    assert!(
        flat(&shown).contains("Two snapshots of one Python package, compared, live."),
        "the manual body is drawn from page one:\n{}",
        flat(&shown)
    );
    let open = text_of(&floor::footer(&app));
    assert!(
        open.contains("? or h close the manual"),
        "the footer switches to the manual's own keys: {open:?}"
    );
    assert!(
        text_of(&floor::header(&app, 0)[0]).contains("target pkg"),
        "the header stays put behind the manual"
    );
    assert_ne!(closed, open, "toggling help must change the footer");
}

#[test]
fn drawing_clamps_a_scroll_that_ran_past_the_end() {
    let (_fx, mut app) = watched(View::Structure);

    // Three rows, plenty of room: the only legal offset is the top.
    app.tree_scroll = usize::MAX;
    let lines = floor::tree_lines(&app);
    let (_, shown) = floor::tree_pane(&mut app, lines, 18);
    assert_eq!(
        app.tree_scroll, 0,
        "a tree shorter than the pane cannot be scrolled at all"
    );
    assert_has_line(&shown, "object ⟨external⟩");

    // Two visible lines for three rows: the last row lands at the bottom.
    app.tree_scroll = usize::MAX;
    let lines = floor::tree_lines(&app);
    let (_, shown) = floor::tree_pane(&mut app, lines, 2);
    assert_eq!(
        app.tree_scroll, 1,
        "the clamp stops with the final row on screen, never past it"
    );
    assert_has_line(&shown, "  └─ * Channel  pkg.core:1  AMENDED");
    assert_has_line(&shown, "     └─ · Agent  pkg.core:7");
    assert!(
        !flat(&shown).contains("⟨external⟩"),
        "the scrolled-past root is gone:\n{}",
        flat(&shown)
    );
}

// ----------------------------------------------------------------- manual

/// The lines `manual::rule` draws; they are the only width-aware ones.
fn rules(width: u16) -> Vec<String> {
    manual::pages(width)
        .iter()
        .map(text_of)
        .filter(|line| line.starts_with("  ── "))
        .collect()
}

#[test]
fn manual_section_rules_stretch_to_the_requested_width() {
    for width in [100u16, 120, 160, 200] {
        let rules = rules(width);
        assert_eq!(
            rules.len(),
            8,
            "every section of the manual is introduced by one rule"
        );
        for rule in &rules {
            assert_eq!(
                rule.chars().count(),
                width as usize - 1,
                "a rule at width {width} fills the line but for the pane's last \
                 column, got {rule:?}"
            );
            assert!(rule.ends_with('─'), "the rule runs out in dashes: {rule:?}");
        }
    }
    assert!(
        rules(100)[0].contains("STATUS · what changed about a thing itself"),
        "the first rule labels the status legend"
    );
}

#[test]
fn manual_lines_fit_inside_the_requested_width() {
    for width in [100u16, 110, 120, 160, 200] {
        for line in manual::pages(width) {
            assert!(
                width_of(&line) <= width as usize,
                "a manual line is {} columns wide at width {width}, so it would be \
                 clipped: {:?}",
                width_of(&line),
                text_of(&line)
            );
        }
    }
}

#[test]
fn manual_section_rules_fit_inside_a_narrow_width() {
    // 40 is the floor manual::pages clamps to, so it is a width the manual
    // claims to support; two of the labels are longer than that on their own.
    for rule in rules(40) {
        assert!(
            rule.chars().count() <= 40,
            "a rule ruled to 40 columns came out {} wide: {rule:?}",
            rule.chars().count()
        );
    }
}

#[test]
fn manual_clamps_the_width_it_rules_to() {
    assert_eq!(
        rules(4),
        rules(40),
        "anything below 40 columns is ruled as 40"
    );
    assert_eq!(
        rules(1000),
        rules(200),
        "anything above 200 columns is ruled as 200"
    );
    assert_ne!(
        rules(40),
        rules(120),
        "between the clamps the width is used"
    );
}

#[test]
fn manual_legend_carries_every_change_status_the_views_can_report() {
    let text = manual::plain(100);
    let statuses: Vec<Status> = Status::STRUCTURE
        .iter()
        .chain(Status::NETWORK.iter())
        .copied()
        .collect();
    assert_eq!(
        statuses.len(),
        Status::STRUCTURE.len() + Status::NETWORK.len(),
        "every status a view can report is checked, however many that is"
    );

    for status in statuses {
        assert!(
            status.is_change(),
            "{status:?} sits in a view legend, so it must count as a change"
        );
        let entry = format!("  {}  {:<11}", status.glyph(), status.tag());
        assert!(
            text.contains(&entry),
            "the manual's legend is missing {:?} — it must be built from the enum \
             so it cannot drift from the code. Looked for {entry:?} in:\n{text}",
            status.tag()
        );
    }
    // NOMINAL is not a change, so no view legend lists it, but the manual still
    // has to explain the dot the tree draws.
    assert!(!Status::Nominal.is_change());
    assert!(
        text.contains(&format!("  {}  {:<11}", Status::Nominal.glyph(), "NOMINAL")),
        "the manual still documents the unchanged marker:\n{text}"
    );
}

#[test]
fn manual_documents_both_traffic_tags() {
    let text = manual::plain(100);
    for edge in [Edge::Live, Edge::Opened, Edge::Closed] {
        if !edge.is_change() {
            assert_eq!(edge.tag(), "", "a live link is drawn with no tag at all");
            continue;
        }
        // Without this, an empty tag would make the `contains` below vacuous.
        assert!(
            !edge.tag().is_empty(),
            "a changed link must carry a tag to document ({edge:?})"
        );
        assert!(
            text.contains(edge.tag()),
            "the manual never mentions the {:?} tag {:?}:\n{text}",
            edge,
            edge.tag()
        );
    }
    assert!(text.contains("NEW TRAFFIC"));
    assert!(text.contains("WENT DARK"));
}

#[test]
fn manual_documents_every_marker_the_floor_draws() {
    let text = manual::plain(100);
    // Exactly the markers floor.rs can put on a row.
    for (marker, meaning) in [
        ("+Log", "a base beyond the one the class hangs off"),
        (
            "⟨external⟩",
            "a name that resolves nowhere inside the package",
        ),
        ("?", "an inferred link"),
        ("⋯", "already expanded further up"),
        ("↻", "the operation calls itself"),
        ("<cycle>", "holds nodes reachable only through a cycle"),
    ] {
        let row = format!("     {marker:<13}");
        let documented = text
            .lines()
            .any(|line| line.starts_with(&row) && line.contains(meaning));
        assert!(
            documented,
            "the marker {marker:?} is drawn on the floor but not explained in the \
             manual's MARKERS table:\n{text}"
        );
    }
}

// ------------------------------------------------------------------- keys

fn press(app: &mut App, key: Key) -> bool {
    app.on_key(key) == Command::Quit
}

#[test]
fn q_quits() {
    let (_fx, mut app) = watched(View::Structure);
    assert!(press(&mut app, Key::Char('q')), "q asks to leave");
    assert!(
        !press(&mut app, Key::Char('x')),
        "an unbound key does nothing at all"
    );
}

#[test]
fn ctrl_c_quits_rather_than_toggling_the_changes_filter() {
    let (_fx, mut app) = watched(View::Structure);
    let quit = press(&mut app, Key::Interrupt);
    assert!(quit, "ctrl-c asks to leave");
    assert!(
        !app.changes_only,
        "ctrl-c must not also flip the changes-only filter"
    );
}

#[test]
fn question_mark_toggles_the_manual_and_rewinds_it() {
    let (_fx, mut app) = watched(View::Structure);
    assert!(!app.help, "the manual starts closed");

    assert!(
        !press(&mut app, Key::Char('?')),
        "opening is not quitting"
    );
    assert!(app.help, "? opens the manual");

    app.help_scroll = 12;
    assert!(!press(&mut app, Key::Char('?')));
    assert!(!app.help, "? closes it again");
    assert_eq!(app.help_scroll, 0, "the manual reopens at the top");

    assert!(!press(&mut app, Key::Char('h')));
    assert!(app.help, "h is the second binding for the manual");
}

#[test]
fn esc_closes_the_manual_when_it_is_open_and_quits_when_it_is_not() {
    let (_fx, mut app) = watched(View::Structure);
    app.help = true;
    assert!(
        !press(&mut app, Key::Esc),
        "esc with the manual open is a close, not a quit"
    );
    assert!(!app.help);
    assert!(
        press(&mut app, Key::Esc),
        "esc with nothing open asks to leave"
    );
}

#[test]
fn digit_keys_switch_view_and_rewind_both_panes() {
    let (_fx, mut app) = watched(View::Structure);
    app.tree_scroll = 7;
    app.feed_scroll = 3;

    assert!(!press(&mut app, Key::Char('2')));
    assert_eq!(app.view, View::Network, "2 is the traffic view");
    assert_eq!(app.tree_scroll, 0, "a new view starts at the top");
    assert_eq!(app.feed_scroll, 0, "and so does its feed");

    app.tree_scroll = 5;
    assert!(!press(&mut app, Key::Char('2')));
    assert_eq!(
        app.tree_scroll, 5,
        "asking for the view already on screen leaves the position alone"
    );

    assert!(!press(&mut app, Key::Char('1')));
    assert_eq!(app.view, View::Structure, "1 is the structure view");
    assert_eq!(app.tree_scroll, 0);

    assert!(!press(&mut app, Key::Char('v')));
    assert_eq!(app.view, View::Network, "v cycles to the other view");
}

#[test]
fn c_toggles_changes_only_and_rewinds_the_tree() {
    let (_fx, mut app) = watched(View::Structure);
    assert!(!app.changes_only, "the filter starts off");
    app.tree_scroll = 4;

    assert!(!press(&mut app, Key::Char('c')));
    assert!(app.changes_only, "c turns the filter on");
    assert_eq!(
        app.tree_scroll, 0,
        "a pruned tree is shorter, so the position is rewound"
    );

    assert!(!press(&mut app, Key::Char('c')));
    assert!(!app.changes_only, "c turns it back off");
}

#[test]
fn r_asks_for_a_full_resync_and_leaves_the_seat_alone() {
    let (_fx, mut app) = watched(View::Structure);
    app.tree_scroll = 2;
    assert_eq!(app.on_key(Key::Char('r')), Command::Resync);
    assert_eq!(app.tree_scroll, 2);
    assert!(!app.help && !app.changes_only);
}

#[test]
fn pressing_a_toggle_twice_restores_the_seat() {
    let (_fx, mut app) = watched(View::Structure);
    for key in [Key::Char('?'), Key::Char('h'), Key::Char('c'), Key::Char('v'), Key::Tab, Key::BackTab] {
        let (help, changes_only, view, focus) = (app.help, app.changes_only, app.view, app.focus);
        assert_eq!(app.on_key(key), Command::Stay, "{key:?} asks nothing of the front end");
        assert_eq!(app.on_key(key), Command::Stay);
        assert_eq!(
            (app.help, app.changes_only, app.view, app.focus),
            (help, changes_only, view, focus),
            "pressing {key:?} twice puts the seat back"
        );
    }
}

#[test]
fn an_unreadable_side_is_reported_in_the_footer_and_the_views_stay() {
    let (_fx, mut app) = watched(View::Structure);
    let before = texts(&floor::tree_lines(&app));

    app.fail(false, "permission denied");
    assert_eq!(
        app.error.as_deref(),
        Some("working tree unreadable: permission denied")
    );
    assert_eq!(
        text_of(&floor::footer(&app)),
        " ! working tree unreadable: permission denied",
        "the footer gives way to the error"
    );
    assert_eq!(
        texts(&floor::tree_lines(&app)),
        before,
        "the views keep the last picture that could be read"
    );

    app.fail(true, "bad object HEAD");
    assert_eq!(app.error.as_deref(), Some("baseline unreadable: bad object HEAD"));
}

#[test]
fn the_baseline_is_reread_only_when_head_moves_or_a_resync_is_forced() {
    let (_fx, app) = watched(View::Structure);
    let same = Some(HEAD.to_string());
    assert!(!app.wants_baseline(false, &same), "HEAD has not moved");
    assert!(app.wants_baseline(true, &same), "a forced resync rereads it anyway");
    assert!(app.wants_baseline(false, &Some("ca2f2b2".to_string())), "HEAD moved");
    assert!(app.wants_baseline(false, &None), "HEAD went away");
}
