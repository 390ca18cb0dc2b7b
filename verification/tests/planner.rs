use gladius_planner::geom::{Point, Polygon};
use gladius_planner::moves::{Move, MoveChain, MoveType};
use gladius_planner::scanfill::{partial_fill_polygon, solid_fill_polygon};
use gladius_planner::settings::{Settings, SlicerError};
use gladius_planner::slice::{Slice, ShellPass};

const MM: i64 = 1_000_000;

fn settings() -> Settings {
    Settings {
        layer_width: MM as u64,
        infill_percentage: 20,
        inner_perimeters_first: false,
        wall_count: 3,
    }
}

fn pt(x: i64, y: i64) -> Point {
    Point { x, y }
}

fn square(x0: i64, y0: i64, x1: i64, y1: i64) -> Vec<Point> {
    vec![pt(x0, y0), pt(x1, y0), pt(x1, y1), pt(x0, y1)]
}

fn square_cw(x0: i64, y0: i64, x1: i64, y1: i64) -> Vec<Point> {
    vec![pt(x0, y0), pt(x0, y1), pt(x1, y1), pt(x1, y0)]
}

fn poly(exterior: Vec<Point>, interiors: Vec<Vec<Point>>) -> Polygon {
    Polygon { exterior, interiors }
}

#[test]
fn unit_square_one_shell_no_fill() {
    let mut slice = Slice::from_single_point_loop(square(0, 0, 10 * MM, 10 * MM));
    let pass = ShellPass {
        inset: vec![poly(square(MM / 2, MM / 2, 19 * MM / 2, 19 * MM / 2), vec![])],
        shrunk: vec![poly(square(MM, MM, 9 * MM, 9 * MM), vec![])],
    };
    slice.slice_perimeters_into_chains(&settings(), vec![pass]);
    assert_eq!(slice.chains.len(), 1);
    let chain = &slice.chains[0];
    assert_eq!(chain.start_point, pt(MM / 2, MM / 2));
    assert_eq!(chain.moves.len(), 4);
    for m in &chain.moves {
        assert_eq!(m.move_type, MoveType::OuterPerimeter);
        assert_eq!(m.width, MM as u64);
    }
    assert_eq!(chain.moves[0].end, pt(19 * MM / 2, MM / 2));
    assert_eq!(chain.moves[1].end, pt(19 * MM / 2, 19 * MM / 2));
    assert_eq!(chain.moves[2].end, pt(MM / 2, 19 * MM / 2));
    assert_eq!(chain.moves[3].end, pt(MM / 2, MM / 2));
}

#[test]
fn square_with_square_hole_one_shell() {
    let rings = vec![
        square(0, 0, 10 * MM, 10 * MM),
        square_cw(3 * MM, 3 * MM, 7 * MM, 7 * MM),
    ];
    let mut slice = Slice::from_multiple_point_loop(&rings).unwrap();
    assert_eq!(slice.main.len(), 1);
    assert_eq!(slice.main[0].interiors.len(), 1);
    let pass = ShellPass {
        inset: vec![poly(
            square(MM / 2, MM / 2, 19 * MM / 2, 19 * MM / 2),
            vec![square_cw(5 * MM / 2, 5 * MM / 2, 15 * MM / 2, 15 * MM / 2)],
        )],
        shrunk: vec![],
    };
    slice.slice_perimeters_into_chains(&settings(), vec![pass]);
    assert_eq!(slice.chains.len(), 2);
    let tour = slice.slice_into_commands(&settings()).unwrap();
    assert_eq!(tour.moves.len(), 10);
    let travels: Vec<usize> = tour
        .moves
        .iter()
        .enumerate()
        .filter(|(_, m)| m.move_type == MoveType::Travel)
        .map(|(i, _)| i)
        .collect();
    assert_eq!(travels, vec![0, 5]);
    assert_eq!(tour.moves[0].end, tour.start_point);
}

#[test]
fn hole_without_exterior_is_malformed() {
    let rings = vec![square_cw(3 * MM, 3 * MM, 7 * MM, 7 * MM)];
    let r = Slice::from_multiple_point_loop(&rings);
    assert_eq!(r.err(), Some(SlicerError::MalformedRings));
}

#[test]
fn hole_attaches_to_most_recent_exterior() {
    let rings = vec![
        square(2 * MM, 2 * MM, 8 * MM, 8 * MM),
        square(0, 0, 10 * MM, 10 * MM),
        square_cw(4 * MM, 4 * MM, 6 * MM, 6 * MM),
    ];
    let slice = Slice::from_multiple_point_loop(&rings).unwrap();
    assert_eq!(slice.main.len(), 2);
    // sorted by area descending: the big square first, the small one after
    assert_eq!(slice.main[0].exterior[0], pt(0, 0));
    assert_eq!(slice.main[0].interiors.len(), 0);
    assert_eq!(slice.main[1].exterior[0], pt(2 * MM, 2 * MM));
    assert_eq!(slice.main[1].interiors.len(), 1);
}

#[test]
fn solid_fill_square_scanlines() {
    let p = poly(square(0, 0, 10 * MM, 10 * MM), vec![]);
    let chain = solid_fill_polygon(&p, &settings()).unwrap();
    assert_eq!(chain.moves.len(), 30);
    for k in 0..10 {
        let y = MM / 2 + (k as i64) * MM;
        for j in 0..3 {
            assert_eq!(chain.moves[3 * k + j].end.y, y);
        }
        // boustrophedon: the deposited move alternates direction
        let solid = &chain.moves[3 * k + 2];
        assert_eq!(solid.move_type, MoveType::SolidInfill);
        if k % 2 == 0 {
            assert_eq!(solid.end.x, 0);
        } else {
            assert_eq!(solid.end.x, 10 * MM);
        }
    }
    assert_eq!(chain.start_point, pt(0, MM / 2));
}

#[test]
fn sparse_fill_square_lattice() {
    let p = poly(square(0, 0, 10 * MM, 10 * MM), vec![]);
    let chain = partial_fill_polygon(&p, &settings(), 20).unwrap();
    // spacing 5 mm; the square contributes a single deposited line at y = 5 mm
    assert_eq!(chain.moves.len(), 3);
    for m in &chain.moves {
        assert_eq!(m.end.y % (5 * MM), 0);
        assert_eq!(m.end.y, 5 * MM);
    }
    assert_eq!(chain.moves[0].move_type, MoveType::Travel);
    assert_eq!(chain.moves[1].move_type, MoveType::Travel);
    assert_eq!(chain.moves[2].move_type, MoveType::SolidInfill);
    assert_eq!(chain.moves[2].end.x, 10 * MM);
}

#[test]
fn sparse_lattice_independent_of_position() {
    // the same square shifted down by 3 mm still rasters on the 5 mm lattice
    let p = poly(square(0, -3 * MM, 10 * MM, 7 * MM), vec![]);
    let chain = partial_fill_polygon(&p, &settings(), 20).unwrap();
    assert!(chain.moves.len() >= 3);
    for m in &chain.moves {
        assert_eq!(m.end.y % (5 * MM), 0);
    }
}

#[test]
fn sparse_continuation_is_deposited() {
    // 10 mm x 22 mm rectangle: scanlines at 5, 10, 15, 20 mm; after the
    // first, no new edge activates, so each line opens with a deposited move
    let p = poly(square(0, 0, 10 * MM, 22 * MM), vec![]);
    let chain = partial_fill_polygon(&p, &settings(), 20).unwrap();
    assert_eq!(chain.moves.len(), 12);
    for k in 1..4 {
        let first_of_line = &chain.moves[3 * k + 1];
        assert_eq!(first_of_line.move_type, MoveType::SolidInfill);
    }
}

#[test]
fn triangle_vertex_on_scanline_completes() {
    // one vertex lies exactly on the second scanline (y = 1.5 mm)
    let p = poly(
        vec![
            pt(0, 10 * MM),
            pt(5 * MM, 0),
            pt(10 * MM, 3 * MM / 2),
            pt(10 * MM, 10 * MM),
        ],
        vec![],
    );
    let chain = solid_fill_polygon(&p, &settings());
    assert!(chain.is_some());
}

#[test]
fn flat_bottom_triangle_yields_nothing() {
    // every edge activates on the first scanline, so the scan ends before
    // emitting: an empty result, not an error
    let p = poly(vec![pt(0, 0), pt(10 * MM, 0), pt(5 * MM, 10 * MM)], vec![]);
    assert!(solid_fill_polygon(&p, &settings()).is_none());
}

#[test]
fn two_disjoint_squares_bridged_once() {
    let ring_a = square(0, 0, 10 * MM, 10 * MM);
    let ring_b = square(100 * MM, 0, 110 * MM, 10 * MM);
    let ring_c = square(20 * MM, 0, 30 * MM, 10 * MM);
    let mk = |ring: &Vec<Point>| -> MoveChain {
        MoveChain {
            start_point: ring[0],
            moves: ring
                .iter()
                .cycle()
                .skip(1)
                .take(4)
                .map(|&p| Move { end: p, move_type: MoveType::OuterPerimeter, width: MM as u64 })
                .collect(),
        }
    };
    let mut slice = Slice {
        main: vec![],
        remaining: vec![],
        chains: vec![mk(&ring_a), mk(&ring_b), mk(&ring_c)],
    };
    let tour = slice.slice_into_commands(&settings()).unwrap();
    assert_eq!(slice.chains.len(), 0);
    assert_eq!(tour.moves.len(), 15);
    let travel_ends: Vec<Point> = tour
        .moves
        .iter()
        .filter(|m| m.move_type == MoveType::Travel)
        .map(|m| m.end)
        .collect();
    // nearest first: the square at 20 mm is visited before the one at 100 mm
    assert_eq!(travel_ends, vec![ring_a[0], ring_c[0], ring_b[0]]);
}

#[test]
fn rotated_solid_fill_stays_near_bounding_box() {
    let mut slice = Slice::from_single_point_loop(square(0, 0, 10 * MM, 10 * MM));
    slice.fill_remaining_area(&settings(), true, 1);
    assert_eq!(slice.chains.len(), 1);
    let chain = &slice.chains[0];
    let within = |p: Point| -> bool {
        -MM <= p.x && p.x <= 11 * MM && -MM <= p.y && p.y <= 11 * MM
    };
    assert!(within(chain.start_point));
    assert!(within(chain.moves.last().unwrap().end));
}

#[test]
fn unrotated_solid_fill_through_slice() {
    let mut slice = Slice::from_single_point_loop(square(0, 0, 10 * MM, 10 * MM));
    slice.fill_remaining_area(&settings(), true, 0);
    assert_eq!(slice.chains.len(), 1);
    assert_eq!(slice.chains[0].moves.len(), 30);
    let tour = slice.slice_into_commands(&settings()).unwrap();
    assert_eq!(tour.moves.len(), 31);
}

#[test]
fn sparse_fill_through_slice() {
    let mut slice = Slice::from_single_point_loop(square(0, 0, 10 * MM, 10 * MM));
    slice.fill_remaining_area(&settings(), false, 0);
    assert_eq!(slice.chains.len(), 1);
    assert_eq!(slice.chains[0].moves.len(), 3);
}

#[test]
fn settings_validation() {
    assert!(settings().validate().is_ok());
    let mut s = settings();
    s.layer_width = 0;
    assert_eq!(s.validate().err(), Some(SlicerError::InvalidSettings));
    let mut s = settings();
    s.infill_percentage = 0;
    assert_eq!(s.validate().err(), Some(SlicerError::InvalidSettings));
    let mut s = settings();
    s.infill_percentage = 101;
    assert_eq!(s.validate().err(), Some(SlicerError::InvalidSettings));
    let mut s = settings();
    s.wall_count = 0;
    assert_eq!(s.validate().err(), Some(SlicerError::InvalidSettings));
}

#[test]
fn error_codes_and_messages() {
    let (code, msg) = SlicerError::MalformedRings.get_code_and_message();
    assert_eq!(code, 0x2000);
    assert_eq!(msg, "hole ring has no enclosing exterior");
    let (code, _) = SlicerError::DegenerateGeometry.get_code_and_message();
    assert_eq!(code, 0x2001);
    let (code, _) = SlicerError::InvalidSettings.get_code_and_message();
    assert_eq!(code, 0x2002);
}

#[test]
fn empty_chain_buffer_serialises_to_nothing() {
    let mut slice = Slice::from_single_point_loop(square(0, 0, 10 * MM, 10 * MM));
    assert!(slice.slice_into_commands(&settings()).is_none());
}

#[test]
fn bounding_rect_of_ring() {
    let ring = vec![pt(3 * MM, -MM), pt(10 * MM, 4 * MM), pt(-2 * MM, 7 * MM)];
    let (lo, hi) = gladius_planner::geom::bounding_rect(&ring);
    assert_eq!(lo, pt(-2 * MM, -MM));
    assert_eq!(hi, pt(10 * MM, 7 * MM));
}
