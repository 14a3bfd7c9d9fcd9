//! Integer screen geometry: points, axis-aligned rectangles, compass
//! directions, tiling axes and drop-position classification.

use vstd::prelude::*;

verus! {

/// Represents an x-y screen coordinate.
#[derive(Debug, Clone, Copy, PartialEq, Eq, Structural)]
pub struct Point {
    pub x: i32,
    pub y: i32,
}

impl Point {
    pub fn from_xy(x: i32, y: i32) -> (p: Point)
        ensures
            p.x == x,
            p.y == y,
    {
        Point { x, y }
    }

    /// Sentinel that stands for "no known position"; it sorts before every
    /// real position on both axes.
    pub fn min() -> (p: Point)
        ensures
            p.x == i32::MIN,
            p.y == i32::MIN,
    {
        Point { x: i32::MIN, y: i32::MIN }
    }
}

/// An axis-aligned rectangle in screen coordinates. The horizontal span is
/// `[left, right)` and the vertical span is `[top, bottom)`.
#[derive(Debug, Clone, Copy, PartialEq, Eq, Structural)]
pub struct Rect {
    pub left: i32,
    pub top: i32,
    pub right: i32,
    pub bottom: i32,
}

/// A compass direction for focus navigation and window movement.
#[derive(Debug, Clone, Copy, PartialEq, Eq, Structural)]
pub enum Direction {
    Up,
    Down,
    Left,
    Right,
}

/// The axis along which a workspace or split container arranges children.
#[derive(Debug, Clone, Copy, PartialEq, Eq, Structural)]
pub enum TilingDirection {
    Horizontal,
    Vertical,
}

/// Quadrant of a container's rectangle on which a dragged window landed,
/// relative to the rectangle's center.
#[derive(Debug, Clone, Copy, PartialEq, Eq, Structural)]
pub enum DropPosition {
    Top,
    Bottom,
    Left,
    Right,
}

impl Direction {
    pub open spec fn spec_inverse(self) -> Direction {
        match self {
            Direction::Up => Direction::Down,
            Direction::Down => Direction::Up,
            Direction::Left => Direction::Right,
            Direction::Right => Direction::Left,
        }
    }

    pub fn inverse(self) -> (d: Direction)
        ensures
            d == self.spec_inverse(),
    {
        match self {
            Direction::Up => Direction::Down,
            Direction::Down => Direction::Up,
            Direction::Left => Direction::Right,
            Direction::Right => Direction::Left,
        }
    }
}

impl TilingDirection {
    pub open spec fn spec_inverse(self) -> TilingDirection {
        match self {
            TilingDirection::Horizontal => TilingDirection::Vertical,
            TilingDirection::Vertical => TilingDirection::Horizontal,
        }
    }

    pub fn inverse(self) -> (d: TilingDirection)
        ensures
            d == self.spec_inverse(),
    {
        match self {
            TilingDirection::Horizontal => TilingDirection::Vertical,
            TilingDirection::Vertical => TilingDirection::Horizontal,
        }
    }

    /// The natural axis of a compass direction: Left/Right move along the
    /// horizontal axis, Up/Down along the vertical one.
    pub open spec fn spec_from_direction(direction: Direction) -> TilingDirection {
        match direction {
            Direction::Left | Direction::Right => TilingDirection::Horizontal,
            Direction::Up | Direction::Down => TilingDirection::Vertical,
        }
    }

    pub fn from_direction(direction: Direction) -> (d: TilingDirection)
        ensures
            d == TilingDirection::spec_from_direction(direction),
    {
        match direction {
            Direction::Left | Direction::Right => TilingDirection::Horizontal,
            Direction::Up | Direction::Down => TilingDirection::Vertical,
        }
    }
}

impl Rect {
    pub open spec fn spec_width(self) -> int {
        self.right - self.left
    }

    pub open spec fn spec_height(self) -> int {
        self.bottom - self.top
    }

    pub open spec fn spec_contains_point(self, point: Point) -> bool {
        &&& self.left <= point.x < self.right
        &&& self.top <= point.y < self.bottom
    }

    /// Half of a span, rounded toward zero.
    pub open spec fn spec_half(w: int) -> int {
        if w >= 0 {
            w / 2
        } else {
            -((-w) / 2)
        }
    }

    pub open spec fn spec_center_x(self) -> int {
        self.left + Self::spec_half(self.spec_width())
    }

    pub open spec fn spec_center_y(self) -> int {
        self.top + Self::spec_half(self.spec_height())
    }

    /// Horizontal gap between a point and the rectangle's horizontal span:
    /// zero when the point is within the span.
    pub open spec fn spec_dx_to(self, point: Point) -> int {
        if self.left - point.x >= point.x - self.right && self.left - point.x >= 0 {
            self.left - point.x
        } else if point.x - self.right >= 0 {
            point.x - self.right
        } else {
            0
        }
    }

    pub open spec fn spec_dy_to(self, point: Point) -> int {
        if self.top - point.y >= point.y - self.bottom && self.top - point.y >= 0 {
            self.top - point.y
        } else if point.y - self.bottom >= 0 {
            point.y - self.bottom
        } else {
            0
        }
    }

    /// Squared Euclidean distance from a point to the rectangle; zero when
    /// the point lies inside. Squares preserve every distance comparison,
    /// so nothing more than the squared form is ever needed.
    pub open spec fn spec_distance_sq_to_point(self, point: Point) -> int {
        self.spec_dx_to(point) * self.spec_dx_to(point) + self.spec_dy_to(point) * self.spec_dy_to(
            point,
        )
    }

    pub fn contains_point(&self, point: &Point) -> (r: bool)
        ensures
            r == self.spec_contains_point(*point),
    {
        point.x >= self.left && point.x < self.right && point.y >= self.top && point.y
            < self.bottom
    }

    pub fn center_point(&self) -> (c: Point)
        ensures
            c.x == self.spec_center_x(),
            c.y == self.spec_center_y(),
    {
        let width: i64 = self.right as i64 - self.left as i64;
        let height: i64 = self.bottom as i64 - self.top as i64;
        let cx: i64 = self.left as i64 + width / 2;
        let cy: i64 = self.top as i64 + height / 2;
        Point { x: cx as i32, y: cy as i32 }
    }

    pub fn distance_sq_to_point(&self, point: &Point) -> (d: u128)
        ensures
            d as int == self.spec_distance_sq_to_point(*point),
    {
        let dx1: i64 = self.left as i64 - point.x as i64;
        let dx2: i64 = point.x as i64 - self.right as i64;
        let dx: i64 = if dx1 >= dx2 && dx1 >= 0 {
            dx1
        } else if dx2 >= 0 {
            dx2
        } else {
            0
        };
        let dy1: i64 = self.top as i64 - point.y as i64;
        let dy2: i64 = point.y as i64 - self.bottom as i64;
        let dy: i64 = if dy1 >= dy2 && dy1 >= 0 {
            dy1
        } else if dy2 >= 0 {
            dy2
        } else {
            0
        };
        proof {
            assert((dx as int) * (dx as int) + (dy as int) * (dy as int)
                < 0x2_0000_0000_0000_0000_0000_0000) by (nonlinear_arith)
                requires
                    0 <= dx < 0x1_0000_0000_0000,
                    0 <= dy < 0x1_0000_0000_0000,
            ;
        }
        (dx as u128) * (dx as u128) + (dy as u128) * (dy as u128)
    }
}

/// Where a point lies relative to a rectangle's center, with the rectangle
/// divided by its diagonals into four triangular quadrants: the horizontal
/// branch wins only when `|dx|` strictly exceeds `|dy|`, so points on a
/// diagonal classify as Top or Bottom; a zero vertical delta defaults to Top.
pub open spec fn spec_drop_position(mouse_pos: Point, rect: Rect) -> DropPosition {
    let dx = mouse_pos.x - rect.spec_center_x();
    let dy = mouse_pos.y - rect.spec_center_y();
    let abs_dx = if dx >= 0 {
        dx
    } else {
        -dx
    };
    let abs_dy = if dy >= 0 {
        dy
    } else {
        -dy
    };
    if abs_dx > abs_dy {
        if dx > 0 {
            DropPosition::Right
        } else {
            DropPosition::Left
        }
    } else {
        if dy > 0 {
            DropPosition::Bottom
        } else {
            DropPosition::Top
        }
    }
}

/// Gets the drop position for a window based on the mouse position.
///
/// This approach divides the window rect into an "X", creating four
/// triangular quadrants, to determine which side the cursor is closest to.
pub fn drop_position(mouse_pos: &Point, rect: &Rect) -> (r: DropPosition)
    ensures
        r == spec_drop_position(*mouse_pos, *rect),
{
    let center = rect.center_point();
    let delta_x: i64 = mouse_pos.x as i64 - center.x as i64;
    let delta_y: i64 = mouse_pos.y as i64 - center.y as i64;
    let abs_dx: i64 = if delta_x >= 0 {
        delta_x
    } else {
        -delta_x
    };
    let abs_dy: i64 = if delta_y >= 0 {
        delta_y
    } else {
        -delta_y
    };
    if abs_dx > abs_dy {
        if delta_x > 0 {
            DropPosition::Right
        } else {
            DropPosition::Left
        }
    } else {
        if delta_y > 0 {
            DropPosition::Bottom
        } else {
            DropPosition::Top
        }
    }
}

} // verus!
