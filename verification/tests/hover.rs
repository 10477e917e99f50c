use qs_client::geometry::{Extent, Layout, Point};
use qs_client::pointer::{hover_change, HoverChange};

fn square() -> Option<Layout> {
    Some(Layout { size: Extent { width: 10, height: 10 }, location: Point { x: 0, y: 0 } })
}

#[test]
fn coming_in_is_an_entry() {
    assert_eq!(
        hover_change(square(), None, Point { x: 5, y: 5 }),
        HoverChange { position: Some(Point { x: 5, y: 5 }), entered: true, left: false }
    );
}

#[test]
fn staying_inside_is_only_a_move() {
    assert_eq!(
        hover_change(square(), Some(Point { x: 5, y: 5 }), Point { x: 6, y: 4 }),
        HoverChange { position: Some(Point { x: 6, y: 4 }), entered: false, left: false }
    );
}

#[test]
fn going_out_is_a_leave() {
    assert_eq!(
        hover_change(square(), Some(Point { x: 5, y: 5 }), Point { x: 50, y: 50 }),
        HoverChange { position: None, entered: false, left: true }
    );
}

#[test]
fn staying_outside_is_nothing() {
    assert_eq!(
        hover_change(square(), None, Point { x: 50, y: 50 }),
        HoverChange { position: None, entered: false, left: false }
    );
    assert_eq!(
        hover_change(None, None, Point { x: 5, y: 5 }),
        HoverChange { position: None, entered: false, left: false }
    );
}

#[test]
fn losing_the_layout_is_a_leave() {
    assert_eq!(
        hover_change(None, Some(Point { x: 5, y: 5 }), Point { x: 5, y: 5 }),
        HoverChange { position: None, entered: false, left: true }
    );
}

#[test]
fn position_is_relative_to_the_corner() {
    let layout =
        Some(Layout { size: Extent { width: 10, height: 10 }, location: Point { x: 30, y: 40 } });
    assert_eq!(
        hover_change(layout, None, Point { x: 33, y: 47 }).position,
        Some(Point { x: 3, y: 7 })
    );
}
