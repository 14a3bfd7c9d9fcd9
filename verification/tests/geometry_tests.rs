use wm_core::geometry::{drop_position, Direction, DropPosition, Point, Rect, TilingDirection};

fn rect(left: i32, top: i32, right: i32, bottom: i32) -> Rect {
    Rect { left, top, right, bottom }
}

#[test]
fn point_constructors() {
    let p = Point::from_xy(3, -7);
    assert_eq!(p.x, 3);
    assert_eq!(p.y, -7);
    let m = Point::min();
    assert_eq!(m.x, i32::MIN);
    assert_eq!(m.y, i32::MIN);
}

#[test]
fn direction_inverses() {
    assert_eq!(Direction::Left.inverse(), Direction::Right);
    assert_eq!(Direction::Up.inverse(), Direction::Down);
    assert_eq!(TilingDirection::Horizontal.inverse(), TilingDirection::Vertical);
    assert_eq!(TilingDirection::from_direction(Direction::Left), TilingDirection::Horizontal);
    assert_eq!(TilingDirection::from_direction(Direction::Down), TilingDirection::Vertical);
}

#[test]
fn rect_contains_point_half_open() {
    let r = rect(0, 0, 100, 50);
    assert!(r.contains_point(&Point::from_xy(0, 0)));
    assert!(r.contains_point(&Point::from_xy(99, 49)));
    assert!(!r.contains_point(&Point::from_xy(100, 10)));
    assert!(!r.contains_point(&Point::from_xy(10, 50)));
    assert!(!r.contains_point(&Point::from_xy(-1, 10)));
}

#[test]
fn rect_center_point() {
    let r = rect(50, 50, 150, 150);
    let c = r.center_point();
    assert_eq!(c.x, 100);
    assert_eq!(c.y, 100);
}

#[test]
fn distance_sq_zero_inside_and_ordering() {
    let r = rect(0, 0, 100, 100);
    assert_eq!(r.distance_sq_to_point(&Point::from_xy(50, 50)), 0);
    // 10 to the right of the right edge
    let d_near = r.distance_sq_to_point(&Point::from_xy(110, 50));
    let d_far = r.distance_sq_to_point(&Point::from_xy(130, 50));
    assert_eq!(d_near, 10 * 10);
    assert!(d_near < d_far);
    // diagonal distance combines both axes
    let d_diag = r.distance_sq_to_point(&Point::from_xy(103, 104));
    assert_eq!(d_diag, 3 * 3 + 4 * 4);
}

#[test]
fn drop_position_quadrants() {
    // rectangle centered at (100, 100)
    let r = rect(50, 50, 150, 150);
    assert_eq!(drop_position(&Point::from_xy(150, 110), &r), DropPosition::Right);
    assert_eq!(drop_position(&Point::from_xy(105, 150), &r), DropPosition::Bottom);
    assert_eq!(drop_position(&Point::from_xy(40, 95), &r), DropPosition::Left);
    assert_eq!(drop_position(&Point::from_xy(98, 60), &r), DropPosition::Top);
}

#[test]
fn drop_position_diagonal_defaults_to_vertical_branch() {
    let r = rect(50, 50, 150, 150);
    // exactly on the diagonal: |dx| == |dy| classifies by the sign of dy
    assert_eq!(drop_position(&Point::from_xy(120, 120), &r), DropPosition::Bottom);
    assert_eq!(drop_position(&Point::from_xy(80, 80), &r), DropPosition::Top);
    // dy == 0 with |dx| == |dy| == 0 defaults to Top
    assert_eq!(drop_position(&Point::from_xy(100, 100), &r), DropPosition::Top);
}
