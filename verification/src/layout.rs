//! The panel geometry shared by drawing and scroll arithmetic.

use ratatui::layout::{Constraint, Direction, Layout, Rect};
use vstd::prelude::*;

verus! {

/// The heights of the two output panels that the terminal layout assigns
/// for a frame of the given size.
pub uninterp spec fn output_panel_rows_of(width: u16, height: u16) -> (u16, u16);

/// Relies on ratatui's `Layout::split`: a pure, cached computation that
/// divides the frame as the renderer does — a three-row header band, a
/// 35%/65% horizontal split, and the output column halved into the two
/// panel rows returned here, each within the frame's height.
#[verifier::external_body]
pub fn output_panel_rows(width: u16, height: u16) -> (r: (u16, u16))
    ensures
        r == output_panel_rows_of(width, height),
        r.0 <= height,
        r.1 <= height,
{
    let area = Rect::new(0, 0, width, height);
    let main = Layout::default().direction(Direction::Vertical).constraints(
        [Constraint::Length(3), Constraint::Min(0)],
    ).split(area);
    let body = Layout::default().direction(Direction::Horizontal).constraints(
        [Constraint::Percentage(35), Constraint::Percentage(65)],
    ).split(main[1]);
    let output = Layout::default().direction(Direction::Vertical).constraints(
        [Constraint::Percentage(50), Constraint::Percentage(50)],
    ).split(body[1]);
    (output[0].height, output[1].height)
}

} // verus!
