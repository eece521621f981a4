use vstd::prelude::*;

use ratatui::layout::{Constraint, Direction, Layout, Rect};

verus! {

/// A rectangle of the terminal: its left column, top row, width and height.
#[derive(Debug, Clone, Copy, PartialEq, Eq)]
pub struct Area {
    pub x: u16,
    pub y: u16,
    pub width: u16,
    pub height: u16,
}

/// The direction in which a rectangle is cut into bands.
#[derive(Debug, Clone, Copy, PartialEq, Eq)]
pub enum Axis {
    Vertical,
    Horizontal,
}

/// The middle band that ratatui's layout solver cuts out of the rectangle
/// `(x, y, width, height)` when it splits it, vertically or horizontally,
/// into three bands of `outer`, `middle` and `outer` percent.
pub uninterp spec fn middle_band(
    vertical: bool,
    outer: u16,
    middle: u16,
    x: u16,
    y: u16,
    width: u16,
    height: u16,
) -> (u16, u16, u16, u16);

/// `ratatui::layout::Layout::split` with the constraints `Percentage(outer)`,
/// `Percentage(middle)`, `Percentage(outer)`, in the given direction; the
/// middle band is returned. The contract only names the band
/// (`middle_band`): the solver's rounding is not stated.
#[verifier::external_body]
fn split_middle(axis: Axis, outer: u16, middle: u16, area: Area) -> (band: Area)
    ensures
        (band.x, band.y, band.width, band.height) == middle_band(
            axis == Axis::Vertical,
            outer,
            middle,
            area.x,
            area.y,
            area.width,
            area.height,
        ),
{
    let direction = match axis {
        Axis::Vertical => Direction::Vertical,
        Axis::Horizontal => Direction::Horizontal,
    };
    let constraints = [
        Constraint::Percentage(outer),
        Constraint::Percentage(middle),
        Constraint::Percentage(outer),
    ];
    let rect = Rect::new(area.x, area.y, area.width, area.height);
    let band = Layout::default().direction(direction).constraints(constraints).split(rect)[1];
    Area { x: band.x, y: band.y, width: band.width, height: band.height }
}

/// The popup rectangle: `percent_y` percent of `area`'s height in the middle,
/// then `percent_x` percent of that band's width in the middle, with equal
/// margins on both sides.
pub open spec fn centered(percent_x: u16, percent_y: u16, area: Area) -> (u16, u16, u16, u16) {
    let v = middle_band(
        true,
        ((100 - percent_y) / 2) as u16,
        percent_y,
        area.x,
        area.y,
        area.width,
        area.height,
    );
    middle_band(false, ((100 - percent_x) / 2) as u16, percent_x, v.0, v.1, v.2, v.3)
}

/// The rectangle of a popup that takes `percent_x` by `percent_y` percent of
/// `area`, centred in it.
pub fn centered_rect(percent_x: u16, percent_y: u16, area: Area) -> (popup: Area)
    requires
        percent_x <= 100,
        percent_y <= 100,
    ensures
        (popup.x, popup.y, popup.width, popup.height) == centered(percent_x, percent_y, area),
{
    let vertical = split_middle(Axis::Vertical, (100 - percent_y) / 2, percent_y, area);
    split_middle(Axis::Horizontal, (100 - percent_x) / 2, percent_x, vertical)
}

} // verus!
