use gladius_planner::geom::{Point, Polygon};
use gladius_planner::moves::{collapse_move_chains, ring_chain, MoveType};
use gladius_planner::perimeter::{draw_as_line, inset_polygon_recursive, InsetNode};
use gladius_planner::settings::Settings;

const MM: i64 = 1_000_000;

fn pt(x: i64, y: i64) -> Point {
    Point { x, y }
}

fn square(x0: i64, y0: i64, x1: i64, y1: i64) -> Vec<Point> {
    vec![pt(x0, y0), pt(x1, y0), pt(x1, y1), pt(x0, y1)]
}

fn settings(inner_first: bool) -> Settings {
    Settings {
        layer_width: MM as u64,
        infill_percentage: 20,
        inner_perimeters_first: inner_first,
        wall_count: 3,
    }
}

fn two_wall_tree() -> Vec<InsetNode> {
    let inner = InsetNode {
        polygon: Polygon { exterior: square(MM, MM, 9 * MM, 9 * MM), interiors: vec![] },
        children: vec![],
    };
    vec![InsetNode {
        polygon: Polygon { exterior: square(0, 0, 10 * MM, 10 * MM), interiors: vec![] },
        children: vec![inner],
    }]
}

#[test]
fn recursive_inset_outer_before_inner() {
    let tour = inset_polygon_recursive(&two_wall_tree(), &settings(false), true).unwrap();
    // outer ring chain, then the collapsed inner wall, stitched by travels
    assert_eq!(tour.start_point, pt(0, 0));
    assert_eq!(tour.moves.len(), 11);
    assert_eq!(tour.moves[0].move_type, MoveType::Travel);
    assert_eq!(tour.moves[1].move_type, MoveType::OuterPerimeter);
    assert_eq!(tour.moves[5].move_type, MoveType::Travel);
    assert_eq!(tour.moves[5].end, pt(MM, MM));
    assert_eq!(tour.moves[7].move_type, MoveType::InnerPerimeter);
}

#[test]
fn recursive_inset_inner_before_outer() {
    let tour = inset_polygon_recursive(&two_wall_tree(), &settings(true), true).unwrap();
    assert_eq!(tour.start_point, pt(MM, MM));
    assert_eq!(tour.moves.len(), 11);
    assert_eq!(tour.moves[2].move_type, MoveType::InnerPerimeter);
}

#[test]
fn recursive_inset_of_nothing_is_none() {
    assert!(inset_polygon_recursive(&vec![], &settings(false), true).is_none());
}

#[test]
fn draw_as_line_traces_exterior() {
    let p = Polygon { exterior: square(0, 0, 10 * MM, 10 * MM), interiors: vec![] };
    let chain = draw_as_line(&p, MM as u64, MoveType::SolidInfill).unwrap();
    assert_eq!(chain.start_point, pt(0, 0));
    assert_eq!(chain.moves.len(), 4);
    assert_eq!(chain.moves[3].end, pt(0, 0));
    for m in &chain.moves {
        assert_eq!(m.move_type, MoveType::SolidInfill);
        assert_eq!(m.width, MM as u64);
    }
}

#[test]
fn collapse_stitches_in_order() {
    let a = ring_chain(&square(0, 0, 2 * MM, 2 * MM), MoveType::OuterPerimeter, MM as u64);
    let b = ring_chain(&square(5 * MM, 0, 7 * MM, 2 * MM), MoveType::InnerPerimeter, MM as u64);
    let tour = collapse_move_chains(&vec![a, b]).unwrap();
    assert_eq!(tour.start_point, pt(0, 0));
    assert_eq!(tour.moves.len(), 10);
    assert_eq!(tour.moves[0].end, pt(0, 0));
    assert_eq!(tour.moves[5].end, pt(5 * MM, 0));
    assert_eq!(tour.moves[5].move_type, MoveType::Travel);
    assert_eq!(tour.moves[5].width, 0);
}

#[test]
fn collapse_of_nothing_is_none() {
    assert!(collapse_move_chains(&vec![]).is_none());
}
