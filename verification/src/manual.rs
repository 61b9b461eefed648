//! The field manual: every piece of jargon on the floor, traced back to the
//! syntax tree it was read off. Rendered into the body area when help is open.

use vstd::prelude::*;

use crate::look::{color, spec_bold, spec_color, spec_edge_color, spec_in, spec_text, strip_view, strips_view, Hue, Look, Strip};
use crate::sitrep::{spec_edge_tag, spec_glyph, spec_status_tag, Edge, Status};
use vstd::string::StrSliceExecFns;
use crate::text::{lines, lines_of, owned, pad, repeat_char, spec_pad, spec_repeat, spec_starts_with, spec_trim_end, trim_end};

verus! {

pub const OVERVIEW: &'static str = "
  Two snapshots of one Python package, compared, live.

      baseline   the package as committed at git HEAD    git show HEAD:<path>
      current    the package as it sits on disk right now

  Every .py file on both sides is parsed with tree-sitter. Nothing is imported
  and nothing is executed: every claim on this screen is read off the syntax
  tree, which is why a file that does not yet parse cleanly still reports
  whatever the parser could recover.";

pub const EDGE_EXAMPLE: &'static str = "
  baseline                        current
  ────────                        ───────
  def brief(self):                def brief(self):
      self.send(\"orders\")             self.open()
                                      self.close()";

pub const CLASS_AST: &'static str = "
  class Handler(Agent, Log):        class_definition
      def assign(self):               ├── name .......... identifier Handler
          self.log()                  ├── superclasses .. argument_list
                                      │     ├── identifier Agent
                                      │     └── identifier Log
                                      └── body .......... block
                                            └── function_definition

  becomes   Subject  qualname  pkg.mod.Handler
                     bases     Agent, Log
                     methods   assign";

pub const CLASS_FOREST: &'static str = "
  class Channel: ...                object ⟨external⟩
  class Log: ...                      ├─ Channel
  class Agent(Channel, Log):          │    └─ Agent +Log
      ...                             └─ Log

  A class hangs off the first of its bases that resolves inside the package.
  Any base left over rides along as +Log. Bases that resolve nowhere become
  ⟨external⟩ roots, so third-party hierarchies stay visible without being
  parsed — you see that something derives from BaseModel without reading
  pydantic.";

pub const CALL_AST: &'static str = "
  def send(self, payload):          function_definition
      self.open()                     ├── name ........ identifier send
      transmit(payload)               ├── parameters .. parameters
                                      └── body ........ block
                                            ├── call
                                            │     └── function
                                            │           attribute self.open
                                            └── call
                                                  └── function
                                                        identifier transmit

  becomes   Operation  callsign  pkg.mod.Channel.send
                       params    self, payload
                       calls     self.open, transmit   (text, resolved later)";

pub const RESOLUTION: &'static str = "
  Python dispatches at run time, so every resolved call carries a grade and
  the header reports the ratio.

  CONFIRMED     read straight off the syntax
                  transmit()       a def in this same module
                  Channel()        a class in this module → its __init__
                  self.open()      walked up the inheritance graph of view 1
                  super().open()   the same walk, starting one level up
                  pkg.mod.fn()     that qualified name exists

  PROBABLE  ?   exactly one operation in the package carries the name, and the
                receiver's type cannot be known from syntax alone
                  agent.brief()    → pkg.agents.Agent.brief

  DROPPED       ambiguous, or outside the package entirely. Counted as traffic
                leaving the package, never guessed at.
                  print()   len(x)   requests.get()   two classes with .run()";

pub const CALL_FOREST: &'static str = "
  def run():                        run
      handler.assign()                └─ Handler.assign ?
                                           ├─ Agent.brief ?
  def assign(self, agent):                 │    └─ Channel.send
      agent.brief()                        └─ Handler.log
      self.log()

  Roots are entry points: operations that nothing inside the package calls.
  Both graphs are directed and acyclic only by luck, and the screen is a tree,
  so a callee reached from two callers is expanded under the first one and
  marked ⋯ under the rest. Anything reachable only through a cycle is bucketed
  under <cycle> rather than dropped.";

pub const NODE_TABLE: &'static str = "
  tree-sitter node        fields read              becomes
  ────────────────        ───────────              ───────
  class_definition        name, superclasses, body Subject
  function_definition     name, parameters, body   Operation
  decorated_definition    definition               carries decorators down
  argument_list           identifier | attribute   a base class
                          subscript → value        Generic[T] → Generic
                          keyword_argument         skipped (metaclass=...)
  parameters              name of each parameter   the signature
                          annotations and defaults ignored, so a retyped
                                                   parameter is not a change
  call                    function                 one raw call target
                          identifier | attribute   anything else ignored";

pub const KEYS: &'static str = "
  1 2 v    switch view                c      changes-only filter
  tab      switch pane                r      force resync
  ↑ ↓ j k  scroll                     g G    top / bottom
  ? h      this page                  q      quit";

pub const RELOCATION_NOTE: &'static str = "  Relocation is detected, not inferred twice over: a burned and an activated
  thing with the same name and the same connections are merged into one move.";

pub const BOTH_SIDES_NOTE: &'static str = "  Only drawn when the caller exists on both sides. Every call out of a brand
  new function is new by definition, and flagging all of them tells you nothing.";

pub const BASES_NOTE: &'static str = "  Bases are normalized on the way in: Generic[T] is recorded as Generic, and
  keyword arguments such as metaclass= are dropped. Nested classes keep their
  enclosing class in the name, so Kit inside FieldAgent reads FieldAgent.Kit.";

pub const NESTED_NOTE: &'static str = "  Nested def and class bodies are skipped — their calls belong to them, not to
  the function they sit inside.";

pub const BLIND_SPOTS: &'static str = "
  Imports are not followed. Resolution is structural, so a name that is
  ambiguous across the package resolves to nothing rather than to a guess.

  Module-level code is not attributed to any operation, and its calls are not
  recorded. Work done at import time is invisible here.

  A method reached only through its base class has no in-package caller, so it
  appears as its own entry point. The SITREP notes `overrides Base.m` when it
  applies, but the tree does not reroute virtual dispatch.";

pub const LEGEND_ACTIVATED: &'static str = "here now, absent at baseline";

pub const DETAIL_ACTIVATED: &'static str = "no node with this qualified name existed in the baseline tree";

pub const LEGEND_BURNED: &'static str = "at baseline, gone now";

pub const DETAIL_BURNED: &'static str = "the definition was deleted, or renamed into something new";

pub const LEGEND_REALIGNED: &'static str = "a class changed base classes";

pub const DETAIL_REALIGNED: &'static str = "class A(Base) → class A(Other): the argument_list differs";

pub const LEGEND_REROUTED: &'static str = "an operation changed who it calls";

pub const DETAIL_REROUTED: &'static str = "a call node entered or left the body, changing the resolved set";

pub const LEGEND_RELOCATED: &'static str = "same thing, same links, new module";

pub const DETAIL_RELOCATED: &'static str = "a move rather than a rewrite; the burned/activated pair is merged";

pub const LEGEND_AMENDED: &'static str = "contents moved, connections held";

pub const DETAIL_AMENDED: &'static str = "a class's method set, or an operation's params, decorators or async";

pub const LEGEND_WAKE: &'static str = "a callee moved out from under it";

pub const DETAIL_WAKE: &'static str = "it calls what it called before; only the callee's module changed";

pub const LEGEND_NOMINAL: &'static str = "no observed difference";

pub const DETAIL_INDENT: &'static str = "                 ";

pub const TRAFFIC_OPENED: &'static str = "this caller did not call this callee at baseline";

pub const TRAFFIC_CLOSED: &'static str = "it did at baseline, and no longer does";

/// A line's view, as its pieces.
pub type LineView = Seq<(Seq<char>, Look)>;

/// A block of text: one line per line of `text`, then a blank line.
pub open spec fn block_spec(text: Seq<char>, look: Look) -> Seq<LineView> {
    lines_of(text).map_values(|l: Seq<char>| seq![(l, look)]) + seq![Seq::<(Seq<char>, Look)>::empty()]
}

pub open spec fn prose_spec(text: Seq<char>) -> Seq<LineView> {
    block_spec(text, spec_in(Hue::Gray))
}

pub open spec fn art_spec(text: Seq<char>) -> Seq<LineView> {
    block_spec(text, spec_in(Hue::Art))
}

/// The label of a section rule as it fits `width`, and the dashes after it.
/// A label too long for the width is cut short so the rule still ends in a
/// dash and never runs past the pane.
pub open spec fn rule_label(width: nat, label: Seq<char>) -> Seq<char> {
    if label.len() + 7 <= width {
        label
    } else {
        label.take(width - 8)
    }
}

pub open spec fn rule_dashes(width: nat, label: Seq<char>) -> nat {
    if label.len() + 7 <= width {
        (width - label.len() - 7) as nat
    } else {
        1
    }
}

/// A section rule: a blank line, then `── label ─────` across the width.
pub open spec fn rule_spec(width: nat, label: Seq<char>) -> Seq<LineView> {
    seq![
        Seq::empty(),
        seq![
            ("  ── "@, spec_in(Hue::Chrome)),
            (rule_label(width, label), spec_bold(Hue::White)),
            (seq![' '] + spec_repeat('─', rule_dashes(width, label)), spec_in(Hue::Chrome)),
        ],
    ]
}

/// A section rule spans the ruled width but for the pane's last column,
/// whatever its label: a long label is cut short rather than pushing the rule
/// past the pane. It runs out in a dash unless the label leaves no room for
/// one.
pub proof fn law_rule_spans_the_width(width: nat, label: Seq<char>)
    requires
        width >= 8,
    ensures
        spec_text(rule_spec(width, label)[1]).len() == width - 1,
        label.len() + 7 != width ==> spec_text(rule_spec(width, label)[1]).last() == '─',
        spec_starts_with(spec_text(rule_spec(width, label)[1]), "  ── "@),
{
    reveal_strlit("  ── ");
    let line = rule_spec(width, label)[1];
    let tail = seq![' '] + spec_repeat('─', rule_dashes(width, label));
    assert(line.drop_last().drop_last().drop_last() =~= Seq::<(Seq<char>, Look)>::empty());
    assert(line.drop_last().drop_last() =~= seq![("  ── "@, spec_in(Hue::Chrome))]);
    assert(spec_text(line.drop_last().drop_last().drop_last()) =~= Seq::<char>::empty());
    assert(spec_text(line.drop_last().drop_last()) =~= "  ── "@);
    assert(spec_text(line.drop_last()) =~= "  ── "@ + rule_label(width, label));
    assert(spec_text(line) =~= "  ── "@ + rule_label(width, label) + tail);
    if label.len() + 7 != width {
        assert(tail.last() == '─');
    }
    assert((spec_text(line)).subrange(0, 5) =~= "  ── "@);
}

/// Below forty columns the manual is ruled as forty, above two hundred as two
/// hundred, and in between to the width asked for.
pub proof fn law_ruled_width_is_clamped(width: u16)
    ensures
        width < 40 ==> pages_spec(ruled_width(width)) == pages_spec(40),
        width > 200 ==> pages_spec(ruled_width(width)) == pages_spec(200),
        40 <= width <= 200 ==> pages_spec(ruled_width(width)) == pages_spec(width as nat),
{
}

/// Between the clamps the width is used: the manual ruled to two different
/// widths from 40 to 200 is not the same manual, since its first rule spans
/// each width.
#[verifier::spinoff_prover]
#[verifier::rlimit(60)]
pub proof fn law_width_shapes_the_rules(a: u16, b: u16)
    requires
        40 <= a <= 200,
        40 <= b <= 200,
        a != b,
    ensures
        pages_spec(ruled_width(a)) != pages_spec(ruled_width(b)),
{
    let label = "STATUS · what changed about a thing itself"@;
    let p = prose_spec(OVERVIEW@);
    let i = p.len() as int + 1;
    law_rule_spans_the_width(a as nat, label);
    law_rule_spans_the_width(b as nat, label);
    assert(pages_spec(a as nat)[i] == rule_spec(a as nat, label)[1]);
    assert(pages_spec(b as nat)[i] == rule_spec(b as nat, label)[1]);
}

/// The two lines of the legend for one status.
pub open spec fn legend_row_spec(status: Status, headline: Seq<char>, detail: Seq<char>) -> Seq<LineView> {
    let look = spec_bold(spec_color(status));
    seq![
        seq![
            ("  "@ + spec_glyph(status) + "  "@, look),
            (spec_pad(spec_status_tag(status), 11), look),
            (headline, spec_in(Hue::Gray)),
        ],
        seq![(DETAIL_INDENT@ + detail, spec_in(Hue::DarkGray))],
    ]
}

/// The status legend, one entry per status a view reports, then the marker
/// for no change.
pub open spec fn status_legend_spec() -> Seq<LineView> {
    seq![Seq::<(Seq<char>, Look)>::empty()]
        + legend_row_spec(Status::Activated, LEGEND_ACTIVATED@, DETAIL_ACTIVATED@)
        + legend_row_spec(Status::Burned, LEGEND_BURNED@, DETAIL_BURNED@)
        + legend_row_spec(Status::Realigned, LEGEND_REALIGNED@, DETAIL_REALIGNED@)
        + legend_row_spec(Status::Rerouted, LEGEND_REROUTED@, DETAIL_REROUTED@)
        + legend_row_spec(Status::Relocated, LEGEND_RELOCATED@, DETAIL_RELOCATED@)
        + legend_row_spec(Status::Amended, LEGEND_AMENDED@, DETAIL_AMENDED@)
        + legend_row_spec(Status::Wake, LEGEND_WAKE@, DETAIL_WAKE@)
        + seq![
            seq![
                ("  "@ + spec_glyph(Status::Nominal) + "  "@ + spec_pad("NOMINAL"@, 11), spec_in(spec_color(Status::Nominal))),
                (LEGEND_NOMINAL@, spec_in(Hue::Gray)),
            ],
            Seq::empty(),
        ]
}

/// The manual documents every status a view can report: for each status but
/// the unchanged one, at every width, some line of the manual opens with the
/// status's glyph and then its tag padded to eleven columns, in its colour.
pub proof fn law_legend_covers_every_status(w: nat, s: Status)
    requires
        s != Status::Nominal,
    ensures
        exists|i: int|
            0 <= i < pages_spec(w).len() && (#[trigger] pages_spec(w)[i]).len() >= 2 && pages_spec(w)[i][0] == (
                "  "@ + spec_glyph(s) + "  "@,
                spec_bold(spec_color(s)),
            ) && pages_spec(w)[i][1] == (spec_pad(spec_status_tag(s), 11), spec_bold(spec_color(s))),
{
    let p = prose_spec(OVERVIEW@) + rule_spec(w, "STATUS · what changed about a thing itself"@);
    let l = status_legend_spec();
    let k: int = match s {
        Status::Activated => 1,
        Status::Burned => 3,
        Status::Realigned => 5,
        Status::Rerouted => 7,
        Status::Relocated => 9,
        Status::Amended => 11,
        Status::Wake => 13,
        Status::Nominal => 0,
    };
    let row = match s {
        Status::Activated => legend_row_spec(Status::Activated, LEGEND_ACTIVATED@, DETAIL_ACTIVATED@),
        Status::Burned => legend_row_spec(Status::Burned, LEGEND_BURNED@, DETAIL_BURNED@),
        Status::Realigned => legend_row_spec(Status::Realigned, LEGEND_REALIGNED@, DETAIL_REALIGNED@),
        Status::Rerouted => legend_row_spec(Status::Rerouted, LEGEND_REROUTED@, DETAIL_REROUTED@),
        Status::Relocated => legend_row_spec(Status::Relocated, LEGEND_RELOCATED@, DETAIL_RELOCATED@),
        Status::Amended => legend_row_spec(Status::Amended, LEGEND_AMENDED@, DETAIL_AMENDED@),
        Status::Wake => legend_row_spec(Status::Wake, LEGEND_WAKE@, DETAIL_WAKE@),
        Status::Nominal => legend_row_spec(Status::Nominal, Seq::empty(), Seq::empty()),
    };
    assert(l[k] == row[0]);
    assert(l.len() == 17);
    let i = p.len() + k;
    assert((p + l)[i] == l[k]);
    assert(pages_spec(w)[i] == l[k]);
}

/// The manual documents both traffic tags: for each link state that is a
/// change, at every width, some line of the manual's traffic table opens with
/// the tag the tree draws for it, in the tag's colour.
pub proof fn law_traffic_tags_are_documented(w: nat, e: Edge)
    requires
        e != Edge::Live,
    ensures
        exists|i: int|
            0 <= i < pages_spec(w).len() && (#[trigger] pages_spec(w)[i]).len() >= 1 && pages_spec(w)[i][0] == (
                "     "@ + spec_pad(spec_edge_tag(e), 13),
                spec_bold(spec_edge_color(e)),
            ),
{
    let p = prose_spec(OVERVIEW@) + rule_spec(w, "STATUS · what changed about a thing itself"@) + status_legend_spec()
        + prose_spec(RELOCATION_NOTE@) + rule_spec(w, "TRAFFIC · what changed about a link between two things"@);
    let t = edge_legend_spec();
    let k: int = if e == Edge::Opened {
        1
    } else {
        2
    };
    let i = p.len() + k;
    assert(t.len() == 4);
    assert((p + t)[i] == t[k]);
    assert(pages_spec(w)[i] == t[k]);
}

/// One row of a marker or traffic table.
pub open spec fn table_row_spec(marker: Seq<char>, hue: Hue, detail: Seq<char>) -> LineView {
    seq![("     "@ + spec_pad(marker, 13), spec_bold(hue)), (detail, spec_in(Hue::Gray))]
}

pub open spec fn edge_legend_spec() -> Seq<LineView> {
    seq![
        Seq::empty(),
        table_row_spec("NEW TRAFFIC"@, Hue::Green, TRAFFIC_OPENED@),
        table_row_spec("WENT DARK"@, Hue::Red, TRAFFIC_CLOSED@),
        Seq::empty(),
    ]
}

pub open spec fn markers_spec() -> Seq<LineView> {
    seq![
        Seq::empty(),
        table_row_spec("+Log"@, Hue::Blue, "a base beyond the one the class hangs off"@),
        table_row_spec("⟨external⟩"@, Hue::Blue, "a name that resolves nowhere inside the package"@),
        table_row_spec("?"@, Hue::Gray, "an inferred link — see PROBABLE above"@),
        table_row_spec("⋯"@, Hue::Gray, "already expanded further up; the branch stops here"@),
        table_row_spec("↻"@, Hue::Blue, "the operation calls itself"@),
        table_row_spec("<cycle>"@, Hue::Gray, "holds nodes reachable only through a cycle"@),
        Seq::empty(),
    ]
}

/// One row of the worked traffic example.
pub open spec fn example_row_spec(glyph: Seq<char>, name: Seq<char>, tag: Seq<char>, hue: Hue) -> LineView {
    seq![(spec_pad("  "@ + glyph + " "@ + name, 36), spec_bold(hue)), (tag, spec_in(hue))]
}

/// The worked traffic example, coloured the way the real tree colours it.
pub open spec fn traffic_example_spec() -> Seq<LineView> {
    seq![
        Seq::empty(),
        example_row_spec("~"@, "Agent.brief"@, "REROUTED"@, Hue::Yellow),
        example_row_spec("  ├─ ·"@, "Channel.open"@, "NEW TRAFFIC"@, Hue::Green),
        example_row_spec("  ├─ ·"@, "Channel.close"@, "NEW TRAFFIC"@, Hue::Green),
        example_row_spec("  └─ ·"@, "Channel.send"@, "WENT DARK"@, Hue::Red),
        Seq::empty(),
    ]
}

/// The width the manual is ruled to.
pub open spec fn ruled_width(width: u16) -> nat {
    if width < 40 {
        40
    } else if width > 200 {
        200
    } else {
        width as nat
    }
}

/// Every line of the manual, ruled to `w` columns.
pub open spec fn pages_spec(w: nat) -> Seq<LineView> {
    prose_spec(OVERVIEW@)
        + rule_spec(w, "STATUS · what changed about a thing itself"@)
        + status_legend_spec()
        + prose_spec(RELOCATION_NOTE@)
        + rule_spec(w, "TRAFFIC · what changed about a link between two things"@)
        + edge_legend_spec()
        + prose_spec(BOTH_SIDES_NOTE@)
        + art_spec(EDGE_EXAMPLE@)
        + traffic_example_spec()
        + rule_spec(w, "VIEW 1 · INHERITANCE STRUCTURE"@)
        + art_spec(CLASS_AST@)
        + prose_spec(BASES_NOTE@)
        + art_spec(CLASS_FOREST@)
        + rule_spec(w, "VIEW 2 · CALL TRAFFIC"@)
        + art_spec(CALL_AST@)
        + prose_spec(NESTED_NOTE@)
        + art_spec(RESOLUTION@)
        + art_spec(CALL_FOREST@)
        + rule_spec(w, "THE TRANSLATION, EXACTLY"@)
        + art_spec(NODE_TABLE@)
        + rule_spec(w, "MARKERS"@)
        + markers_spec()
        + rule_spec(w, "BLIND SPOTS"@)
        + prose_spec(BLIND_SPOTS@)
        + rule_spec(w, "KEYS"@)
        + art_spec(KEYS@)
}

/// The manual as plain text: each line's text without trailing spaces, then
/// a newline.
pub open spec fn plain_spec(v: Seq<LineView>) -> Seq<char>
    decreases v.len(),
{
    if v.len() == 0 {
        Seq::empty()
    } else {
        plain_spec(v.drop_last()) + spec_trim_end(spec_text(v.last())) + seq!['\n']
    }
}

/// Append `more` to `out`.
fn extend(out: &mut Vec<Strip>, more: Vec<Strip>)
    ensures
        strips_view(final(out)@) == strips_view(old(out)@) + strips_view(more@),
{
    let mut more = more;
    let ghost a = out@;
    let ghost b = more@;
    out.append(&mut more);
    assert(out@ == a + b);
    assert(strips_view(out@) =~= strips_view(a) + strips_view(b));
}

/// A block of text: one line per line of `text`, then a blank line.
fn block(text: &str, look: Look) -> (r: Vec<Strip>)
    ensures
        strips_view(r@) == block_spec(text@, look),
{
    let ls = lines(text);
    let ghost lv = ls@.map_values(|l: String| l@);
    let mut r: Vec<Strip> = Vec::new();
    let mut i: usize = 0;
    while i < ls.len()
        invariant
            lv == ls@.map_values(|l: String| l@),
            i <= ls.len(),
            strips_view(r@) == lv.take(i as int).map_values(|l: Seq<char>| seq![(l, look)]),
        decreases ls.len() - i,
    {
        let ghost before = strips_view(r@);
        let line = Strip::one(ls[i].clone(), look);
        r.push(line);
        assert(strips_view(r@) =~~= before.push(seq![(lv[i as int], look)]));
        assert(lv.take(i + 1) =~= lv.take(i as int).push(lv[i as int]));
        assert(lv.take(i + 1).map_values(|l: Seq<char>| seq![(l, look)]) =~= lv.take(i as int).map_values(
            |l: Seq<char>| seq![(l, look)],
        ).push(seq![(lv[i as int], look)]));
        i = i + 1;
    }
    assert(lv.take(i as int) =~= lv);
    let ghost before = strips_view(r@);
    r.push(Strip::blank());
    assert(strips_view(r@) =~~= before.push(Seq::<(Seq<char>, Look)>::empty()));
    r
}

fn prose(text: &str) -> (r: Vec<Strip>)
    ensures
        strips_view(r@) == prose_spec(text@),
{
    block(text, Look::in_hue(Hue::Gray))
}

fn art(text: &str) -> (r: Vec<Strip>)
    ensures
        strips_view(r@) == art_spec(text@),
{
    block(text, Look::in_hue(Hue::Art))
}

/// A section rule across `width` columns.
fn rule(width: usize, label: &str) -> (r: Vec<Strip>)
    requires
        width >= 8,
    ensures
        strips_view(r@) == rule_spec(width as nat, label@),
{
    let n = label.unicode_len();
    let (shown, dashes) = if n <= width - 7 {
        (owned(label), width - n - 7)
    } else {
        (label.substring_char(0, width - 8).to_string(), 1)
    };
    proof {
        if !(n <= width - 7) {
            assert(label@.subrange(0, width - 8) =~= label@.take(width - 8));
        }
    }
    let mut tail = owned(" ");
    let run = repeat_char('─', dashes);
    tail.append(run.as_str());
    proof {
        reveal_strlit(" ");
        assert(tail@ =~= seq![' '] + spec_repeat('─', rule_dashes(width as nat, label@)));
    }
    let mut line = Strip::blank();
    line.add_str("  ── ", Look::in_hue(Hue::Chrome));
    line.add(shown, Look::bold_hue(Hue::White));
    line.add(tail, Look::in_hue(Hue::Chrome));
    let mut r: Vec<Strip> = Vec::new();
    r.push(Strip::blank());
    r.push(line);
    assert(strips_view(r@) =~~= rule_spec(width as nat, label@));
    r
}

/// The two lines of the legend for one status.
fn legend_row(status: Status, headline: &str, detail: &str) -> (r: Vec<Strip>)
    ensures
        strips_view(r@) == legend_row_spec(status, headline@, detail@),
{
    let look = Look::bold_hue(color(status));
    let mut first = Strip::blank();
    let mut mark = owned("  ");
    mark.append(status.glyph());
    mark.append("  ");
    first.add(mark, look);
    first.add(pad(status.tag(), 11), look);
    first.add_str(headline, Look::in_hue(Hue::Gray));
    let mut text = owned(DETAIL_INDENT);
    text.append(detail);
    let second = Strip::one(text, Look::in_hue(Hue::DarkGray));
    let mut r: Vec<Strip> = Vec::new();
    r.push(first);
    r.push(second);
    assert(strips_view(r@) =~~= legend_row_spec(status, headline@, detail@));
    r
}

/// The status legend, built from the enum so it cannot drift from the code.
fn status_legend() -> (r: Vec<Strip>)
    ensures
        strips_view(r@) == status_legend_spec(),
{
    let mut r: Vec<Strip> = Vec::new();
    r.push(Strip::blank());
    assert(strips_view(r@) =~~= seq![Seq::<(Seq<char>, Look)>::empty()]);
    extend(&mut r, legend_row(Status::Activated, LEGEND_ACTIVATED, DETAIL_ACTIVATED));
    extend(&mut r, legend_row(Status::Burned, LEGEND_BURNED, DETAIL_BURNED));
    extend(&mut r, legend_row(Status::Realigned, LEGEND_REALIGNED, DETAIL_REALIGNED));
    extend(&mut r, legend_row(Status::Rerouted, LEGEND_REROUTED, DETAIL_REROUTED));
    extend(&mut r, legend_row(Status::Relocated, LEGEND_RELOCATED, DETAIL_RELOCATED));
    extend(&mut r, legend_row(Status::Amended, LEGEND_AMENDED, DETAIL_AMENDED));
    extend(&mut r, legend_row(Status::Wake, LEGEND_WAKE, DETAIL_WAKE));
    let mut mark = owned("  ");
    mark.append(Status::Nominal.glyph());
    mark.append("  ");
    mark.append(pad("NOMINAL", 11).as_str());
    let mut last = Strip::blank();
    last.add(mark, Look::in_hue(color(Status::Nominal)));
    last.add_str(LEGEND_NOMINAL, Look::in_hue(Hue::Gray));
    let mut tail: Vec<Strip> = Vec::new();
    tail.push(last);
    tail.push(Strip::blank());
    extend(&mut r, tail);
    assert(strips_view(r@) =~~= status_legend_spec());
    r
}

/// One row of a marker or traffic table.
fn table_row(marker: &str, hue: Hue, detail: &str) -> (s: Strip)
    ensures
        strip_view(s) == table_row_spec(marker@, hue, detail@),
{
    let mut head = owned("     ");
    head.append(pad(marker, 13).as_str());
    let mut s = Strip::blank();
    s.add(head, Look::bold_hue(hue));
    s.add_str(detail, Look::in_hue(Hue::Gray));
    assert(strip_view(s) =~~= table_row_spec(marker@, hue, detail@));
    s
}

fn edge_legend() -> (r: Vec<Strip>)
    ensures
        strips_view(r@) == edge_legend_spec(),
{
    let mut r: Vec<Strip> = Vec::new();
    r.push(Strip::blank());
    r.push(table_row("NEW TRAFFIC", Hue::Green, TRAFFIC_OPENED));
    r.push(table_row("WENT DARK", Hue::Red, TRAFFIC_CLOSED));
    r.push(Strip::blank());
    assert(strips_view(r@) =~~= edge_legend_spec());
    r
}

fn markers() -> (r: Vec<Strip>)
    ensures
        strips_view(r@) == markers_spec(),
{
    let mut r: Vec<Strip> = Vec::new();
    r.push(Strip::blank());
    r.push(table_row("+Log", Hue::Blue, "a base beyond the one the class hangs off"));
    r.push(table_row("⟨external⟩", Hue::Blue, "a name that resolves nowhere inside the package"));
    r.push(table_row("?", Hue::Gray, "an inferred link — see PROBABLE above"));
    r.push(table_row("⋯", Hue::Gray, "already expanded further up; the branch stops here"));
    r.push(table_row("↻", Hue::Blue, "the operation calls itself"));
    r.push(table_row("<cycle>", Hue::Gray, "holds nodes reachable only through a cycle"));
    r.push(Strip::blank());
    assert(strips_view(r@) =~~= markers_spec());
    r
}

/// One row of the worked traffic example.
fn example_row(glyph: &str, name: &str, tag: &str, hue: Hue) -> (s: Strip)
    ensures
        strip_view(s) == example_row_spec(glyph@, name@, tag@, hue),
{
    let mut left = owned("  ");
    left.append(glyph);
    left.append(" ");
    left.append(name);
    let mut s = Strip::blank();
    s.add(pad(left.as_str(), 36), Look::bold_hue(hue));
    s.add_str(tag, Look::in_hue(hue));
    assert(strip_view(s) =~~= example_row_spec(glyph@, name@, tag@, hue));
    s
}

fn traffic_example() -> (r: Vec<Strip>)
    ensures
        strips_view(r@) == traffic_example_spec(),
{
    let mut r: Vec<Strip> = Vec::new();
    r.push(Strip::blank());
    r.push(example_row("~", "Agent.brief", "REROUTED", Hue::Yellow));
    r.push(example_row("  ├─ ·", "Channel.open", "NEW TRAFFIC", Hue::Green));
    r.push(example_row("  ├─ ·", "Channel.close", "NEW TRAFFIC", Hue::Green));
    r.push(example_row("  └─ ·", "Channel.send", "WENT DARK", Hue::Red));
    r.push(Strip::blank());
    assert(strips_view(r@) =~~= traffic_example_spec());
    r
}

/// Every line of the manual, in order, ruled to fit `width` columns.
pub fn pages(width: u16) -> (r: Vec<Strip>)
    ensures
        strips_view(r@) == pages_spec(ruled_width(width)),
{
    let w: usize = if width < 40 {
        40
    } else if width > 200 {
        200
    } else {
        width as usize
    };
    let mut out: Vec<Strip> = Vec::new();
    extend(&mut out, prose(OVERVIEW));
    extend(&mut out, rule(w, "STATUS · what changed about a thing itself"));
    extend(&mut out, status_legend());
    extend(&mut out, prose(RELOCATION_NOTE));
    extend(&mut out, rule(w, "TRAFFIC · what changed about a link between two things"));
    extend(&mut out, edge_legend());
    extend(&mut out, prose(BOTH_SIDES_NOTE));
    extend(&mut out, art(EDGE_EXAMPLE));
    extend(&mut out, traffic_example());
    extend(&mut out, rule(w, "VIEW 1 · INHERITANCE STRUCTURE"));
    extend(&mut out, art(CLASS_AST));
    extend(&mut out, prose(BASES_NOTE));
    extend(&mut out, art(CLASS_FOREST));
    extend(&mut out, rule(w, "VIEW 2 · CALL TRAFFIC"));
    extend(&mut out, art(CALL_AST));
    extend(&mut out, prose(NESTED_NOTE));
    extend(&mut out, art(RESOLUTION));
    extend(&mut out, art(CALL_FOREST));
    extend(&mut out, rule(w, "THE TRANSLATION, EXACTLY"));
    extend(&mut out, art(NODE_TABLE));
    extend(&mut out, rule(w, "MARKERS"));
    extend(&mut out, markers());
    extend(&mut out, rule(w, "BLIND SPOTS"));
    extend(&mut out, prose(BLIND_SPOTS));
    extend(&mut out, rule(w, "KEYS"));
    extend(&mut out, art(KEYS));
    assert(strips_view(out@) =~= pages_spec(ruled_width(width)));
    out
}

/// The manual as plain text, for piping somewhere else.
pub fn plain(width: u16) -> (r: String)
    ensures
        r@ == plain_spec(pages_spec(ruled_width(width))),
{
    let ps = pages(width);
    let ghost v = strips_view(ps@);
    let mut r = String::new();
    let mut i: usize = 0;
    while i < ps.len()
        invariant
            v == strips_view(ps@),
            i <= ps.len(),
            r@ == plain_spec(v.take(i as int)),
        decreases ps.len() - i,
    {
        let t = ps[i].text();
        let trimmed = trim_end(t.as_str());
        r.append(trimmed.as_str());
        r.push('\n');
        proof {
            assert(v.take(i + 1).drop_last() =~= v.take(i as int));
            assert(v.take(i + 1).last() == v[i as int]);
        }
        i = i + 1;
    }
    assert(v.take(i as int) =~= v);
    r
}

} // verus!
