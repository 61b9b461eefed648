//! Styled text as the floor and the manual draw it: a line is a list of
//! pieces, each with a colour and an emphasis. The terminal front end turns
//! these into whatever its widget library wants.

use vstd::prelude::*;

use crate::sitrep::{Edge, Status};
use crate::text::owned;

verus! {

/// The colours the floor uses.
#[derive(Clone, Copy, Debug, PartialEq, Eq, Structural)]
pub enum Hue {
    Green,
    Red,
    Yellow,
    Magenta,
    Cyan,
    Gray,
    DarkGray,
    Blue,
    White,
    Black,
    /// Borders, rules and branch lines.
    Chrome,
    /// Softer than any real change: a wake.
    Wake,
    /// Diagrams in the manual.
    Art,
}

/// How a piece of text is drawn.
#[derive(Clone, Copy, Debug, PartialEq, Eq, Structural)]
pub struct Look {
    pub fg: Option<Hue>,
    pub bg: Option<Hue>,
    pub bold: bool,
    pub dim: bool,
}

/// No colour, no emphasis.
pub open spec fn spec_plain() -> Look {
    Look { fg: None, bg: None, bold: false, dim: false }
}

/// Drawn in `h`.
pub open spec fn spec_in(h: Hue) -> Look {
    Look { fg: Some(h), bg: None, bold: false, dim: false }
}

/// Drawn in `h`, bold.
pub open spec fn spec_bold(h: Hue) -> Look {
    Look { fg: Some(h), bg: None, bold: true, dim: false }
}

impl Look {
    pub fn plain() -> (l: Look)
        ensures
            l == spec_plain(),
    {
        Look { fg: None, bg: None, bold: false, dim: false }
    }

    pub fn in_hue(h: Hue) -> (l: Look)
        ensures
            l == spec_in(h),
    {
        Look { fg: Some(h), bg: None, bold: false, dim: false }
    }

    pub fn bold_hue(h: Hue) -> (l: Look)
        ensures
            l == spec_bold(h),
    {
        Look { fg: Some(h), bg: None, bold: true, dim: false }
    }
}

/// One run of text in one look.
pub struct Piece {
    pub text: String,
    pub look: Look,
}

/// One line: its pieces, left to right.
pub struct Strip {
    pub pieces: Vec<Piece>,
}

/// What a line shows: each piece's text and look.
pub open spec fn strip_view(s: Strip) -> Seq<(Seq<char>, Look)> {
    s.pieces@.map_values(|p: Piece| (p.text@, p.look))
}

/// The views of a list of lines.
pub open spec fn strips_view(v: Seq<Strip>) -> Seq<Seq<(Seq<char>, Look)>> {
    v.map_values(|s: Strip| strip_view(s))
}

/// The text of a line, its pieces run together.
pub open spec fn spec_text(pieces: Seq<(Seq<char>, Look)>) -> Seq<char>
    decreases pieces.len(),
{
    if pieces.len() == 0 {
        Seq::empty()
    } else {
        spec_text(pieces.drop_last()) + pieces.last().0
    }
}

impl Strip {
    /// An empty line.
    pub fn blank() -> (s: Strip)
        ensures
            strip_view(s) == Seq::<(Seq<char>, Look)>::empty(),
    {
        let s = Strip { pieces: Vec::new() };
        assert(strip_view(s) =~= Seq::<(Seq<char>, Look)>::empty());
        s
    }

    /// A line of one piece.
    pub fn one(text: String, look: Look) -> (s: Strip)
        ensures
            strip_view(s) == seq![(text@, look)],
    {
        let mut s = Strip::blank();
        s.add(text, look);
        assert(strip_view(s) =~= seq![(text@, look)]);
        s
    }

    /// Append a piece.
    pub fn add(&mut self, text: String, look: Look)
        ensures
            strip_view(*final(self)) == strip_view(*old(self)).push((text@, look)),
    {
        let ghost before = strip_view(*self);
        let ghost tv = text@;
        self.pieces.push(Piece { text, look });
        assert(strip_view(*self) =~= before.push((tv, look)));
    }

    /// Append a piece of borrowed text.
    pub fn add_str(&mut self, text: &str, look: Look)
        ensures
            strip_view(*final(self)) == strip_view(*old(self)).push((text@, look)),
    {
        self.add(owned(text), look);
    }

    /// The text of the line.
    pub fn text(&self) -> (r: String)
        ensures
            r@ == spec_text(strip_view(*self)),
    {
        let mut r = String::new();
        let mut i: usize = 0;
        while i < self.pieces.len()
            invariant
                i <= self.pieces.len(),
                r@ == spec_text(strip_view(*self).take(i as int)),
            decreases self.pieces.len() - i,
        {
            r.append(self.pieces[i].text.as_str());
            proof {
                assert(strip_view(*self).take(i + 1).drop_last() =~= strip_view(*self).take(i as int));
            }
            i = i + 1;
        }
        assert(strip_view(*self).take(i as int) =~= strip_view(*self));
        r
    }
}

/// The colour of a status.
pub open spec fn spec_color(status: Status) -> Hue {
    match status {
        Status::Activated => Hue::Green,
        Status::Burned => Hue::Red,
        Status::Realigned => Hue::Yellow,
        Status::Rerouted => Hue::Yellow,
        Status::Relocated => Hue::Magenta,
        Status::Amended => Hue::Cyan,
        Status::Wake => Hue::Wake,
        Status::Nominal => Hue::Gray,
    }
}

pub fn color(status: Status) -> (h: Hue)
    ensures
        h == spec_color(status),
{
    match status {
        Status::Activated => Hue::Green,
        Status::Burned => Hue::Red,
        Status::Realigned | Status::Rerouted => Hue::Yellow,
        Status::Relocated => Hue::Magenta,
        Status::Amended => Hue::Cyan,
        Status::Wake => Hue::Wake,
        Status::Nominal => Hue::Gray,
    }
}

/// The colour of a link's traffic.
pub open spec fn spec_edge_color(edge: Edge) -> Hue {
    match edge {
        Edge::Live => Hue::Gray,
        Edge::Opened => Hue::Green,
        Edge::Closed => Hue::Red,
    }
}

pub fn edge_color(edge: Edge) -> (h: Hue)
    ensures
        h == spec_edge_color(edge),
{
    match edge {
        Edge::Live => Hue::Gray,
        Edge::Opened => Hue::Green,
        Edge::Closed => Hue::Red,
    }
}

} // verus!
