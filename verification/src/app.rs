//! Application state: the two snapshots, the views compiled from them, and the
//! operator's position on the floor. Reading the snapshots is the front end's
//! job; it hands them over here, and performs what a key press asks for.

use vstd::prelude::*;
use vstd::view::View as _;

use crate::collection::Target;
use crate::dossier::Dossier;
use crate::intercept::Interceptor;
use crate::network::Network;
use crate::structure::Structure;
use crate::text::{joined, owned};

verus! {

/// The two views of the floor.
#[derive(Clone, Copy, PartialEq, Eq, Debug, Structural)]
pub enum View {
    /// Class inheritance.
    Structure,
    /// Calls between functions and methods.
    Network,
}

/// The two panes of a view.
#[derive(Clone, Copy, PartialEq, Eq, Debug, Structural)]
pub enum Pane {
    Tree,
    Feed,
}

/// A key press, as far as the floor cares.
#[derive(Clone, Copy, PartialEq, Eq, Debug, Structural)]
pub enum Key {
    Char(char),
    /// Control-C.
    Interrupt,
    Esc,
    Tab,
    BackTab,
    Up,
    Down,
    PageUp,
    PageDown,
    Home,
    End,
    Other,
}

/// What the front end should do after a key press.
#[derive(Clone, Copy, PartialEq, Eq, Debug, Structural)]
pub enum Command {
    Stay,
    Quit,
    /// Re-read both snapshots, the baseline included.
    Resync,
}

pub struct App {
    pub target: Target,
    pub interceptor: Interceptor,
    pub baseline: Dossier,
    pub current: Dossier,
    pub structure: Structure,
    pub network: Network,
    pub head_id: Option<String>,
    pub scan_ms: u128,
    pub error: Option<String>,
    pub view: View,
    pub changes_only: bool,
    pub focus: Pane,
    pub tree_scroll: usize,
    pub feed_scroll: usize,
    pub help: bool,
    pub help_scroll: usize,
}

/// The part of the state the operator steers.
pub struct Seat {
    pub view: View,
    pub changes_only: bool,
    pub focus: Pane,
    pub tree_scroll: usize,
    pub feed_scroll: usize,
    pub help: bool,
    pub help_scroll: usize,
}

pub open spec fn seat_of(a: App) -> Seat {
    Seat {
        view: a.view,
        changes_only: a.changes_only,
        focus: a.focus,
        tree_scroll: a.tree_scroll,
        feed_scroll: a.feed_scroll,
        help: a.help,
        help_scroll: a.help_scroll,
    }
}

/// Switch to `v`, rewinding both panes when the view changes.
pub open spec fn show_spec(s: Seat, v: View) -> Seat {
    if s.view != v {
        Seat { view: v, tree_scroll: 0, feed_scroll: 0, ..s }
    } else {
        s
    }
}

/// Move the scroll that has the keys: the manual's while it is open, else
/// the focused pane's.
pub open spec fn scroll_spec(s: Seat, to: spec_fn(usize) -> usize) -> Seat {
    if s.help {
        Seat { help_scroll: to(s.help_scroll), ..s }
    } else if s.focus == Pane::Tree {
        Seat { tree_scroll: to(s.tree_scroll), ..s }
    } else {
        Seat { feed_scroll: to(s.feed_scroll), ..s }
    }
}

pub open spec fn up(n: usize, by: usize) -> usize {
    if n >= by {
        (n - by) as usize
    } else {
        0
    }
}

pub open spec fn down(n: usize, by: usize) -> usize {
    if n + by <= usize::MAX {
        (n + by) as usize
    } else {
        usize::MAX
    }
}

/// What a key press does to the seat, and what it asks of the front end.
pub open spec fn key_spec(s: Seat, key: Key) -> (Seat, Command) {
    match key {
        Key::Interrupt => (s, Command::Quit),
        Key::Char('q') => (s, Command::Quit),
        Key::Esc => if s.help {
            (Seat { help: false, ..s }, Command::Stay)
        } else {
            (s, Command::Quit)
        },
        Key::Char('?') | Key::Char('h') => (Seat { help: !s.help, help_scroll: 0, ..s }, Command::Stay),
        Key::Char('r') => (s, Command::Resync),
        Key::Char('1') => (show_spec(s, View::Structure), Command::Stay),
        Key::Char('2') => (show_spec(s, View::Network), Command::Stay),
        Key::Char('v') => (show_spec(
            s,
            if s.view == View::Structure {
                View::Network
            } else {
                View::Structure
            },
        ), Command::Stay),
        Key::Char('c') => (Seat { changes_only: !s.changes_only, tree_scroll: 0, ..s }, Command::Stay),
        Key::Tab | Key::BackTab => (Seat {
            focus: if s.focus == Pane::Tree {
                Pane::Feed
            } else {
                Pane::Tree
            },
            ..s
        }, Command::Stay),
        Key::Up | Key::Char('k') => (scroll_spec(s, |n: usize| up(n, 1)), Command::Stay),
        Key::Down | Key::Char('j') => (scroll_spec(s, |n: usize| down(n, 1)), Command::Stay),
        Key::PageUp => (scroll_spec(s, |n: usize| up(n, 10)), Command::Stay),
        Key::PageDown => (scroll_spec(s, |n: usize| down(n, 10)), Command::Stay),
        Key::Home | Key::Char('g') => (scroll_spec(s, |n: usize| 0usize), Command::Stay),
        Key::End | Key::Char('G') => (scroll_spec(s, |n: usize| usize::MAX), Command::Stay),
        _ => (s, Command::Stay),
    }
}

/// Each toggle is undone by pressing it again: the manual, the changes-only
/// filter, the view and the pane in focus come back as they were (scrolls
/// that the first press rewound stay rewound), and a toggle never asks the
/// front end for anything.
pub proof fn law_toggles_undo_themselves(s: Seat, key: Key)
    requires
        key == Key::Char('?') || key == Key::Char('h') || key == Key::Char('c') || key == Key::Char('v')
            || key == Key::Tab || key == Key::BackTab,
    ensures
        key_spec(s, key).1 == Command::Stay,
        key_spec(key_spec(s, key).0, key).0.help == s.help,
        key_spec(key_spec(s, key).0, key).0.changes_only == s.changes_only,
        key_spec(key_spec(s, key).0, key).0.view == s.view,
        key_spec(key_spec(s, key).0, key).0.focus == s.focus,
{
}

/// `q` and control-C always ask to leave; Esc closes the manual when it is
/// open and asks to leave when it is not; `r` asks for a resync; no other key
/// asks the front end for anything.
pub proof fn law_what_keys_ask_for(s: Seat, key: Key)
    ensures
        key_spec(s, key).1 == Command::Quit <==> (key == Key::Char('q') || key == Key::Interrupt || (key == Key::Esc
            && !s.help)),
        key_spec(s, key).1 == Command::Resync <==> key == Key::Char('r'),
{
}

/// Everything but the seat is left alone.
pub open spec fn same_but_seat(a: App, b: App) -> bool {
    &&& a.target == b.target
    &&& a.interceptor == b.interceptor
    &&& a.baseline == b.baseline
    &&& a.current == b.current
    &&& a.structure == b.structure
    &&& a.network == b.network
    &&& a.head_id == b.head_id
    &&& a.scan_ms == b.scan_ms
    &&& a.error == b.error
}

impl App {
    /// A floor with nothing read yet.
    pub fn new(target: Target, interceptor: Interceptor, view: View, changes_only: bool) -> (a: App)
        ensures
            a.target == target,
            a.interceptor == interceptor,
            a.baseline.label@ == "HEAD"@,
            a.current.label@ == "working tree"@,
            a.head_id is None,
            a.scan_ms == 0,
            a.error is None,
            a.view == view,
            a.changes_only == changes_only,
            a.focus == Pane::Tree,
            a.tree_scroll == 0 && a.feed_scroll == 0,
            !a.help,
            a.help_scroll == 0,
    {
        App {
            target,
            interceptor,
            baseline: Dossier::new("HEAD"),
            current: Dossier::new("working tree"),
            structure: Structure::default(),
            network: Network::default(),
            head_id: None,
            scan_ms: 0,
            error: None,
            view,
            changes_only,
            focus: Pane::Tree,
            tree_scroll: 0,
            feed_scroll: 0,
            help: false,
            help_scroll: 0,
        }
    }

    pub fn show(&mut self, view: View)
        ensures
            seat_of(*final(self)) == show_spec(seat_of(*old(self)), view),
            same_but_seat(*old(self), *final(self)),
    {
        if self.view != view {
            self.view = view;
            self.tree_scroll = 0;
            self.feed_scroll = 0;
        }
    }

    /// Set the scroll that has the keys.
    fn scroll_to(&mut self, to: usize)
        ensures
            seat_of(*final(self)) == scroll_spec(seat_of(*old(self)), |n: usize| to),
            same_but_seat(*old(self), *final(self)),
    {
        if self.help {
            self.help_scroll = to;
        } else {
            match self.focus {
                Pane::Tree => self.tree_scroll = to,
                Pane::Feed => self.feed_scroll = to,
            }
        }
        assert(seat_of(*self) =~= scroll_spec(seat_of(*old(self)), |n: usize| to));
    }

    /// The scroll that has the keys.
    fn scroll(&self) -> (n: usize)
        ensures
            n == (if self.help {
                self.help_scroll
            } else if self.focus == Pane::Tree {
                self.tree_scroll
            } else {
                self.feed_scroll
            }),
    {
        if self.help {
            self.help_scroll
        } else {
            match self.focus {
                Pane::Tree => self.tree_scroll,
                Pane::Feed => self.feed_scroll,
            }
        }
    }

    /// React to a key press. Quitting and re-reading the snapshots are left
    /// to the front end, which is told which one is wanted.
    pub fn on_key(&mut self, key: Key) -> (c: Command)
        ensures
            (seat_of(*final(self)), c) == key_spec(seat_of(*old(self)), key),
            same_but_seat(*old(self), *final(self)),
    {
        let at = self.scroll();
        match key {
            Key::Interrupt => Command::Quit,
            Key::Char('q') => Command::Quit,
            Key::Esc => {
                if self.help {
                    self.help = false;
                    Command::Stay
                } else {
                    Command::Quit
                }
            },
            Key::Char('?') | Key::Char('h') => {
                self.help = !self.help;
                self.help_scroll = 0;
                Command::Stay
            },
            Key::Char('r') => Command::Resync,
            Key::Char('1') => {
                self.show(View::Structure);
                Command::Stay
            },
            Key::Char('2') => {
                self.show(View::Network);
                Command::Stay
            },
            Key::Char('v') => {
                let next = match self.view {
                    View::Structure => View::Network,
                    View::Network => View::Structure,
                };
                self.show(next);
                Command::Stay
            },
            Key::Char('c') => {
                self.changes_only = !self.changes_only;
                self.tree_scroll = 0;
                Command::Stay
            },
            Key::Tab | Key::BackTab => {
                self.focus = match self.focus {
                    Pane::Tree => Pane::Feed,
                    Pane::Feed => Pane::Tree,
                };
                Command::Stay
            },
            Key::Up | Key::Char('k') => {
                self.scroll_to(at.saturating_sub(1));
                Command::Stay
            },
            Key::Down | Key::Char('j') => {
                self.scroll_to(at.saturating_add(1));
                Command::Stay
            },
            Key::PageUp => {
                self.scroll_to(at.saturating_sub(10));
                Command::Stay
            },
            Key::PageDown => {
                self.scroll_to(at.saturating_add(10));
                Command::Stay
            },
            Key::Home | Key::Char('g') => {
                self.scroll_to(0);
                Command::Stay
            },
            Key::End | Key::Char('G') => {
                self.scroll_to(usize::MAX);
                Command::Stay
            },
            _ => Command::Stay,
        }
    }

    /// Whether a resync must re-read the baseline: when forced, or when HEAD
    /// moved since it was last read. Reading it is the expensive side.
    pub fn wants_baseline(&self, force: bool, head_id: &Option<String>) -> (r: bool)
        ensures
            r == (force || crate::dossier::opt_view(*head_id) != crate::dossier::opt_view(self.head_id)),
    {
        if force {
            return true;
        }
        match (head_id, &self.head_id) {
            (Some(a), Some(b)) => !crate::text::same(a.as_str(), b.as_str()),
            (None, None) => false,
            _ => true,
        }
    }

    /// Take a freshly read baseline, read at HEAD `head_id`.
    pub fn take_baseline(&mut self, baseline: Dossier, head_id: Option<String>)
        ensures
            final(self).baseline == baseline,
            final(self).head_id == head_id,
            final(self).current == old(self).current,
            final(self).error == old(self).error,
            seat_of(*final(self)) == seat_of(*old(self)),
    {
        self.baseline = baseline;
        self.head_id = head_id;
    }

    /// Take a freshly read working tree; a clean read clears any error.
    pub fn take_current(&mut self, current: Dossier)
        ensures
            final(self).current == current,
            final(self).error is None,
            final(self).baseline == old(self).baseline,
            final(self).head_id == old(self).head_id,
            seat_of(*final(self)) == seat_of(*old(self)),
    {
        self.current = current;
        self.error = None;
    }

    /// Report a side that could not be read; the views are left as they were.
    pub fn fail(&mut self, baseline_side: bool, reason: &str)
        ensures
            final(self).error matches Some(e) && e@ == (if baseline_side {
                "baseline unreadable: "@
            } else {
                "working tree unreadable: "@
            }) + reason@,
            final(self).baseline == old(self).baseline,
            final(self).current == old(self).current,
            final(self).structure == old(self).structure,
            final(self).network == old(self).network,
            seat_of(*final(self)) == seat_of(*old(self)),
    {
        let head = if baseline_side {
            owned("baseline unreadable: ")
        } else {
            owned("working tree unreadable: ")
        };
        self.error = Some(joined(head.as_str(), reason));
    }

    /// Recompile both views from the snapshots held.
    pub fn recompile(&mut self, scan_ms: u128)
        ensures
            final(self).baseline == old(self).baseline,
            final(self).current == old(self).current,
            final(self).scan_ms == scan_ms,
            final(self).error == old(self).error,
            seat_of(*final(self)) == seat_of(*old(self)),
            crate::structure::compiled(final(self).baseline, final(self).current, final(self).structure),
            crate::network::compiled(final(self).baseline, final(self).current, final(self).network),
    {
        self.structure = Structure::compile(&self.baseline, &self.current);
        self.network = Network::compile(&self.baseline, &self.current);
        self.scan_ms = scan_ms;
    }
}

/// How long, in milliseconds, the files must stay quiet after a write before
/// the floor resyncs: a burst of writes costs one resync.
pub const SETTLE_MS: u64 = 150;

/// One turn of the watch loop's debounce. `pending_since_ms` is when the wait
/// for quiet began, if one is running; `tripped` says whether files changed
/// since the last turn. A fresh change starts the wait over; a wait that has
/// run `SETTLE_MS` ends, and the floor resyncs.
pub fn settle(pending_since_ms: Option<u64>, now_ms: u64, tripped: bool) -> (r: (Option<u64>, bool))
    requires
        pending_since_ms matches Some(t) ==> t <= now_ms,
    ensures
        r == if tripped {
            (Some(now_ms), false)
        } else if pending_since_ms matches Some(t) && now_ms - t >= SETTLE_MS {
            (None, true)
        } else {
            (pending_since_ms, false)
        },
{
    if tripped {
        (Some(now_ms), false)
    } else {
        match pending_since_ms {
            Some(t) => {
                if now_ms - t >= SETTLE_MS {
                    (None, true)
                } else {
                    (pending_since_ms, false)
                }
            },
            None => (None, false),
        }
    }
}

} // verus!
