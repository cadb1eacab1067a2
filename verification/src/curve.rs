//! Curves: which vertical axis a curve is drawn against.

use vstd::prelude::*;

verus! {

/// The vertical axis a curve is scaled against.
#[derive(Clone, Copy, Debug, PartialEq, Eq, Structural)]
pub enum YAxis {
    Left,
    Right,
}

impl Default for YAxis {
    fn default() -> (r: Self)
        ensures
            r == YAxis::Left,
    {
        YAxis::Left
    }
}

impl YAxis {
    /// The range a curve on this axis is scaled to: the left range for the
    /// left axis; for the right axis the right range, or the left one when the
    /// plot has no right axis.
    pub fn pick<T>(self, left: T, right: Option<T>) -> (r: T)
        ensures
            r == (match (self, right) {
                (YAxis::Right, Some(v)) => v,
                _ => left,
            }),
    {
        match self {
            YAxis::Left => left,
            YAxis::Right => match right {
                Some(v) => v,
                None => left,
            },
        }
    }
}

} // verus!
