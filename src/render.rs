use vstd::prelude::*;
use crate::history::lines_of;
use ratatui::layout::{Constraint, Layout, Rect};
use ratatui::text::Line;
use ratatui::widgets::{Paragraph, Wrap};

verus! {

/// Share of the terminal height, in percent, that the history pane takes.
pub const HISTORY_PERCENT: u16 = 90;

/// Lines of lookahead kept below the newest content when anchored at the bottom.
pub const SCROLL_MARGIN: u16 = 4;

/// Number of rows that the given lines take once word-wrapped to `width`.
pub uninterp spec fn wrapped_line_count(lines: Seq<Seq<char>>, width: u16) -> usize;

/// Height of the top pane when an area of `width` by `height` cells is split
/// vertically into `percent` percent and the remainder.
pub uninterp spec fn top_pane_height(width: u16, height: u16, percent: u16) -> u16;

/// Relies on ratatui's Paragraph::line_count with trimmed word wrapping: the
/// number of rows depends on the lines and the width alone.
#[verifier::external_body]
fn line_count(lines: &Vec<String>, width: u16) -> (r: usize)
    ensures
        r == wrapped_line_count(lines_of(lines@), width),
{
    let text: Vec<Line> = lines.iter().map(|s| Line::from(s.as_str())).collect();
    Paragraph::new(text).wrap(Wrap { trim: true }).line_count(width)
}

/// Relies on ratatui's Layout::split of a vertical layout with a percentage
/// and a fill constraint: the first area's height depends on the arguments
/// alone.
#[verifier::external_body]
fn pane_height(width: u16, height: u16, percent: u16) -> (r: u16)
    ensures
        r == top_pane_height(width, height, percent),
{
    let area = Rect { x: 0, y: 0, width, height };
    let rects = Layout::vertical([Constraint::Percentage(percent), Constraint::Fill(1)]).split(area);
    rects[0].height
}

/// Lines by which the wrapped history exceeds the pane, with the margin.
pub open spec fn overflow_of(line_count: int, pane_height: int) -> int {
    if line_count - pane_height + SCROLL_MARGIN > 0 {
        line_count - pane_height + SCROLL_MARGIN
    } else {
        0
    }
}

/// `bias` brought into `[-overflow, 0]`.
pub open spec fn clamp_bias(bias: int, overflow: int) -> int {
    if bias > 0 {
        0
    } else if bias < -overflow {
        -overflow
    } else {
        bias
    }
}

/// Overflow of a history for a terminal of `width` by `height`.
pub open spec fn overflow_for(history: Seq<Seq<char>>, width: u16, height: u16) -> int {
    overflow_of(
        wrapped_line_count(history, width) as int,
        top_pane_height(width, height, HISTORY_PERCENT) as int,
    )
}

/// The overflow never exceeds the largest line count plus the margin.
pub proof fn lemma_overflow_bounded(history: Seq<Seq<char>>, width: u16, height: u16)
    ensures
        0 <= overflow_for(history, width, height) <= usize::MAX + SCROLL_MARGIN,
{
}

/// Where the history pane of a rendered view stands.
pub struct ScrollPosition {
    /// The bias after clamping.
    pub bias: i128,
    /// Lines from the top of the wrapped history at which the pane starts.
    pub offset: u128,
}

/// A clamped bias always lies in `[-overflow, 0]`, and the display offset
/// that it gives lies in `[0, overflow]`.
pub proof fn lemma_clamped_bias_in_bounds(bias: int, overflow: int)
    requires
        overflow >= 0,
    ensures
        -overflow <= clamp_bias(bias, overflow) <= 0,
        0 <= overflow + clamp_bias(bias, overflow) <= overflow,
        -overflow <= bias <= 0 ==> clamp_bias(bias, overflow) == bias,
{
}

/// Clamps `bias` for the given history and terminal size, and gives the
/// offset at which the history pane is drawn: the overflow, less the lines
/// scrolled back.
pub fn scroll_position(history: &Vec<String>, width: u16, height: u16, bias: i128) -> (r: ScrollPosition)
    ensures
        r.bias as int == clamp_bias(bias as int, overflow_for(lines_of(history@), width, height)),
        r.offset as int == overflow_for(lines_of(history@), width, height) + r.bias,
{
    let count = line_count(history, width);
    let pane = pane_height(width, height, HISTORY_PERCENT);
    let overflow: u128 = if (count as u128) + (SCROLL_MARGIN as u128) > (pane as u128) {
        (count as u128) + (SCROLL_MARGIN as u128) - (pane as u128)
    } else {
        0
    };
    let clamped: i128 = if bias > 0 {
        0
    } else if bias < -(overflow as i128) {
        -(overflow as i128)
    } else {
        bias
    };
    let offset: u128 = ((overflow as i128) + (clamped as i128)) as u128;
    ScrollPosition { bias: clamped, offset }
}

} // verus!
