//! The shapes that draw one move of one entity: a curve from the old height to
//! the new one, a straight run at the new height, and under each of them a
//! wider halo in the background's colour that keeps crossing lines apart.
use vstd::prelude::*;
use crate::color::Color;
use crate::track::{Transition, TransitionView};

verus! {

/// How much wider than a line its halo is.
pub const HALO_EXTRA_WIDTH: u64 = 4;

/// A point of the drawing, in layout units.
#[derive(Clone, Copy, Debug, PartialEq, Eq, Structural)]
pub struct Point {
    pub x: i64,
    pub y: i64,
}

/// The pen of a shape. Without a colour of its own it takes the background's.
#[derive(Clone, Copy, Debug, PartialEq, Eq)]
pub struct Stroke {
    pub width: u64,
    pub color: Option<Color>,
}

/// What is drawn.
#[derive(Clone, Copy, Debug, PartialEq, Eq)]
pub enum Shape {
    /// A cubic Bezier curve with its four control points.
    Curve { start: Point, first_control: Point, second_control: Point, end: Point },
    /// A straight segment between two points.
    Segment { from: Point, to: Point },
}

/// One drawable shape. A halo is drawn under the line that follows it.
#[derive(Clone, Copy, Debug, PartialEq, Eq)]
pub struct Primitive {
    pub shape: Shape,
    pub stroke: Stroke,
    pub halo: bool,
}

/// The point at the given coordinates.
pub open spec fn point_at(x: int, y: int) -> Point {
    Point { x: x as i64, y: y as i64 }
}

/// The curve of a move that starts at `x_old`: it leaves the old height
/// level, arrives at the new height level, and turns halfway (the half is
/// rounded down).
pub open spec fn curve_of(t: TransitionView, x_old: int, curve_span: int) -> Shape {
    let mid = x_old + curve_span / 2;
    Shape::Curve {
        start: point_at(x_old, t.previous_y),
        first_control: point_at(mid, t.previous_y),
        second_control: point_at(mid, t.new_y),
        end: point_at(x_old + curve_span, t.new_y),
    }
}

/// The straight run that follows the curve, at the new height.
pub open spec fn segment_of(t: TransitionView, x_old: int, curve_span: int, straight_span: int)
    -> Shape {
    Shape::Segment {
        from: point_at(x_old + curve_span, t.new_y),
        to: point_at(x_old + curve_span + straight_span, t.new_y),
    }
}

/// The pen of an entity's line.
pub open spec fn line_stroke(color: Color, stroke_width: int) -> Stroke {
    Stroke { width: stroke_width as u64, color: Some(color) }
}

/// The pen of a halo.
pub open spec fn halo_stroke(stroke_width: int) -> Stroke {
    Stroke { width: (stroke_width + HALO_EXTRA_WIDTH) as u64, color: None }
}

/// The four shapes of one move, in drawing order: the curve's halo, the curve,
/// the segment's halo, the segment.
pub open spec fn shapes_of(
    t: TransitionView,
    x_old: int,
    curve_span: int,
    straight_span: int,
    stroke_width: int,
) -> Seq<Primitive> {
    let curve = curve_of(t, x_old, curve_span);
    let segment = segment_of(t, x_old, curve_span, straight_span);
    let line = line_stroke(t.color, stroke_width);
    let under = halo_stroke(stroke_width);
    seq![
        Primitive { shape: curve, stroke: under, halo: true },
        Primitive { shape: curve, stroke: line, halo: false },
        Primitive { shape: segment, stroke: under, halo: true },
        Primitive { shape: segment, stroke: line, halo: false },
    ]
}

/// Builds the four shapes of one move that starts at `x_old`.
pub fn emit(
    transition: &Transition,
    x_old: i64,
    curve_span: u32,
    straight_span: u32,
    stroke_width: u32,
) -> (shapes: Vec<Primitive>)
    requires
        x_old + curve_span + straight_span <= i64::MAX,
    ensures
        shapes@ == shapes_of(
            transition@,
            x_old as int,
            curve_span as int,
            straight_span as int,
            stroke_width as int,
        ),
{
    let mid: i64 = x_old + (curve_span / 2) as i64;
    let x_new: i64 = x_old + curve_span as i64;
    let x_end: i64 = x_new + straight_span as i64;
    let curve = Shape::Curve {
        start: Point { x: x_old, y: transition.previous_y },
        first_control: Point { x: mid, y: transition.previous_y },
        second_control: Point { x: mid, y: transition.new_y },
        end: Point { x: x_new, y: transition.new_y },
    };
    let segment = Shape::Segment {
        from: Point { x: x_new, y: transition.new_y },
        to: Point { x: x_end, y: transition.new_y },
    };
    let line = Stroke { width: stroke_width as u64, color: Some(transition.color) };
    let under = Stroke { width: stroke_width as u64 + HALO_EXTRA_WIDTH, color: None };
    let mut shapes: Vec<Primitive> = Vec::new();
    shapes.push(Primitive { shape: curve, stroke: under, halo: true });
    shapes.push(Primitive { shape: curve, stroke: line, halo: false });
    shapes.push(Primitive { shape: segment, stroke: under, halo: true });
    shapes.push(Primitive { shape: segment, stroke: line, halo: false });
    assert(shapes@ =~= shapes_of(
        transition@,
        x_old as int,
        curve_span as int,
        straight_span as int,
        stroke_width as int,
    ));
    shapes
}

} // verus!
