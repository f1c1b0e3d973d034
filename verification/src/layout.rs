//! The vertical split of the terminal: filter bar, entry list, status bar.

use ratatui::layout as tui;
use vstd::prelude::*;

verus! {

/// A screen rectangle, in terminal cells.
#[derive(Clone, Copy, PartialEq, Eq, Structural, Debug)]
pub struct Rect {
    pub x: u16,
    pub y: u16,
    pub width: u16,
    pub height: u16,
}

/// A size constraint on one part of a split.
#[derive(Clone, Copy, PartialEq, Eq, Structural, Debug)]
pub enum Constraint {
    /// Exactly this many cells.
    Length(u16),
    /// At least this many cells.
    Min(u16),
}

/// The three areas of the screen.
#[derive(Clone, Copy, PartialEq, Eq, Structural, Debug)]
pub struct Areas {
    pub filter: Rect,
    pub list: Rect,
    pub help: Rect,
}

/// `parts` are three rectangles stacked top to bottom over the whole of
/// `area`: each as wide as it and at its left edge, the first starting at
/// its top, each next one where the one before ends, and their heights
/// adding up to its height.
pub open spec fn stacked_over(area: Rect, parts: Seq<Rect>) -> bool {
    &&& parts.len() == 3
    &&& forall|i: int| 0 <= i < 3 ==> (#[trigger] parts[i]).x == area.x && parts[i].width == area.width
    &&& parts[0].y == area.y
    &&& parts[1].y == parts[0].y + parts[0].height
    &&& parts[2].y == parts[1].y + parts[1].height
    &&& parts[0].height + parts[1].height + parts[2].height == area.height
}

/// Calls `ratatui::layout::Layout::split` on a vertical layout with its
/// default flex, spacing and margin. Its source gives one rectangle per
/// constraint, each with the area's left edge and width. For the screen's
/// constraints, on an area whose bottom fits in `u16`, it also keeps the
/// spacers between and around the parts empty, which stacks them over the
/// whole area, and from two rows up it meets both one-row lengths, which
/// outweigh the list's growth. On a one-row area the two lengths cannot both
/// hold and the solver's choice between them depends on hash order, so which
/// bar gets the row is not stated.
#[verifier::external_body]
fn split_vertically(area: Rect, constraints: &Vec<Constraint>) -> (r: Vec<Rect>)
    ensures
        r@.len() == constraints@.len(),
        forall|i: int| 0 <= i < r@.len() ==> (#[trigger] r@[i]).x == area.x && r@[i].width == area.width,
        constraints@ == screen_constraints() && area.y + area.height <= u16::MAX ==> {
            &&& stacked_over(area, r@)
            &&& area.height >= 2 ==> r@[0].height == 1 && r@[2].height == 1
        },
{
    let parts = constraints.iter().map(|c| match *c {
        Constraint::Length(n) => tui::Constraint::Length(n),
        Constraint::Min(n) => tui::Constraint::Min(n),
    });
    let whole = tui::Rect { x: area.x, y: area.y, width: area.width, height: area.height };
    let rects = tui::Layout::vertical(parts).split(whole);
    rects.iter().map(|r| Rect { x: r.x, y: r.y, width: r.width, height: r.height }).collect()
}

pub open spec fn screen_constraints() -> Seq<Constraint> {
    seq![Constraint::Length(1), Constraint::Min(0), Constraint::Length(1)]
}

/// The areas of a split into three parts, top to bottom.
pub fn areas_of(parts: &Vec<Rect>) -> (r: Areas)
    requires
        parts@.len() == 3,
    ensures
        r == (Areas { filter: parts@[0], list: parts@[1], help: parts@[2] }),
{
    Areas { filter: parts[0], list: parts[1], help: parts[2] }
}

/// One row for the filter bar at the top, one for the status bar at the
/// bottom, and the list in between.
pub fn layout(area: Rect) -> (r: Areas)
    ensures
        r.filter.x == area.x && r.filter.width == area.width,
        r.list.x == area.x && r.list.width == area.width,
        r.help.x == area.x && r.help.width == area.width,
        area.y + area.height <= u16::MAX ==> stacked_over(area, seq![r.filter, r.list, r.help]),
        area.y + area.height <= u16::MAX && area.height >= 2 ==> {
            &&& r.filter.y == area.y && r.filter.height == 1
            &&& r.list.y == area.y + 1 && r.list.height == area.height - 2
            &&& r.help.y == area.y + area.height - 1 && r.help.height == 1
        },
{
    let constraints = vec![Constraint::Length(1), Constraint::Min(0), Constraint::Length(1)];
    assert(constraints@ == screen_constraints());
    let parts = split_vertically(area, &constraints);
    let r = areas_of(&parts);
    assert(seq![r.filter, r.list, r.help] =~= parts@);
    r
}

} // verus!
