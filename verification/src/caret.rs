//! The screen position below the text caret: the point the candidate
//! overlay is placed at, taken from the caret rectangle that Windows reports.

use vstd::prelude::*;

verus! {

/// A point on the screen below the current input line.
#[derive(Debug, Clone, Copy, PartialEq, Eq, Structural)]
pub struct CaretPos {
    pub x: i32,
    pub y: i32,
    /// Only the focused control was found, not the caret itself.
    pub is_fallback: bool,
}

/// A rectangle in screen or client coordinates.
#[derive(Debug, Clone, Copy, PartialEq, Eq, Structural)]
pub struct ScreenRect {
    pub left: i32,
    pub top: i32,
    pub right: i32,
    pub bottom: i32,
}

/// The caret position a rectangle gives: its bottom-left corner, for a
/// rectangle that is not inverted and has some height (an insertion point
/// is usually zero wide).
pub open spec fn caret_of_rect(rect: ScreenRect, is_fallback: bool) -> Option<CaretPos> {
    if rect.right < rect.left || rect.bottom <= rect.top {
        None
    } else {
        Some(CaretPos { x: rect.left, y: rect.bottom, is_fallback })
    }
}

/// The caret position of a rectangle, as `caret_of_rect` says.
pub fn caret_from_rect(rect: ScreenRect, is_fallback: bool) -> (r: Option<CaretPos>)
    ensures
        r == caret_of_rect(rect, is_fallback),
{
    if rect.right < rect.left || rect.bottom <= rect.top {
        return None;
    }
    Some(CaretPos { x: rect.left, y: rect.bottom, is_fallback })
}

/// The client point below a native caret rectangle: none for an all-zero
/// rectangle (no caret), otherwise the left edge at the bottom, at least one
/// below the top.
pub open spec fn native_caret_point(rect: ScreenRect) -> Option<(i32, i32)> {
    if rect.left == 0 && rect.top == 0 && rect.right == 0 && rect.bottom == 0 {
        None
    } else {
        Some((rect.left, if rect.bottom > rect.top + 1 { rect.bottom } else { (rect.top + 1) as i32 }))
    }
}

/// The client point below a native caret rectangle, as
/// `native_caret_point` says.
pub fn caret_point_from_native(rect: ScreenRect) -> (r: Option<(i32, i32)>)
    requires
        rect.top < i32::MAX,
    ensures
        r == native_caret_point(rect),
{
    if rect.left == 0 && rect.top == 0 && rect.right == 0 && rect.bottom == 0 {
        return None;
    }
    let below = rect.top + 1;
    Some((rect.left, if rect.bottom > below { rect.bottom } else { below }))
}

/// The top-left corner that centres a `width` by `height` window in the
/// work area `work`, never left of or above it.
pub open spec fn centered_origin_spec(work: ScreenRect, width: int, height: int) -> (int, int) {
    let dx = work.right - work.left - width;
    let dy = work.bottom - work.top - height;
    (work.left + if dx > 0 { dx / 2 } else { 0 }, work.top + if dy > 0 { dy / 2 } else { 0 })
}

/// Where a `width` by `height` window goes to sit centred in `work`.
pub fn centered_origin(work: ScreenRect, width: i32, height: i32) -> (r: (i32, i32))
    requires
        i32::MIN <= work.right - work.left - width <= i32::MAX,
        i32::MIN <= work.bottom - work.top - height <= i32::MAX,
        work.left + (work.right - work.left - width) / 2 <= i32::MAX,
        work.top + (work.bottom - work.top - height) / 2 <= i32::MAX,
    ensures
        r.0 == centered_origin_spec(work, width as int, height as int).0,
        r.1 == centered_origin_spec(work, width as int, height as int).1,
{
    let dx: i64 = work.right as i64 - work.left as i64 - width as i64;
    let dy: i64 = work.bottom as i64 - work.top as i64 - height as i64;
    let hx: i64 = if dx > 0 { dx / 2 } else { 0 };
    let hy: i64 = if dy > 0 { dy / 2 } else { 0 };
    ((work.left as i64 + hx) as i32, (work.top as i64 + hy) as i32)
}

} // verus!
