use lsaver::turtle::{
    draw_lsystem_substring, get_next_pen_movement, rand_colour, Colour, Position, TurtleState,
};
use lsaver::{Parameters, FP};

fn chars(s: &str) -> Vec<char> {
    s.chars().collect()
}

fn state_at(x: i64, y: i64) -> TurtleState {
    TurtleState {
        pos: Position { x, y, dir_x: FP, dir_y: 0 },
        colour: Colour { r: 200, g: 210, b: 220, a: 255 },
        position_stack: Vec::new(),
    }
}

const W: i64 = 100 * FP;
const H: i64 = 100 * FP;

#[test]
fn straight_move_draws_one_segment() {
    // "F" with distance 10, heading 0, ample viewport: one segment from
    // (0,0) to (10,0) and the pen ends at (10,0) still heading along x
    let params = Parameters::new();
    let mut st = state_at(0, 0);
    let segs = draw_lsystem_substring(&chars("F"), FP, 0, &mut st, &params, W, H);
    assert_eq!(segs.len(), 1);
    assert_eq!((segs[0].x1, segs[0].y1), (0, 0));
    assert_eq!((segs[0].x2, segs[0].y2), (10 * FP, 0));
    assert_eq!(segs[0].width, params.line_width);
    assert_eq!((st.pos.x, st.pos.y), (10 * FP, 0));
    assert_eq!((st.pos.dir_x, st.pos.dir_y), (FP, 0));
}

#[test]
fn forward_move_wraps_around_the_right_edge() {
    // from (width-5, 0) heading right with distance 10: a thin preview
    // segment to the edge, then the remainder from x = 0 — toroidal wrap
    let params = Parameters::new();
    let mut st = state_at(W - 5 * FP, 0);
    let segs = draw_lsystem_substring(&chars("F"), FP, 0, &mut st, &params, W, H);
    assert_eq!(segs.len(), 2);
    assert_eq!((segs[0].x1, segs[0].y1), (W - 5 * FP, 0));
    assert_eq!((segs[0].x2, segs[0].y2), (W, 0));
    assert_eq!(segs[0].width, FP);
    assert_eq!((segs[1].x1, segs[1].y1), (0, 0));
    assert_eq!((segs[1].x2, segs[1].y2), (5 * FP, 0));
    assert_eq!(segs[1].width, params.line_width);
    assert_eq!((st.pos.x, st.pos.y), (5 * FP, 0));
}

#[test]
fn branch_restores_the_pose_exactly() {
    // "[F]F": the pop returns the pen to the origin, so both segments
    // start at (0,0) and the final pose equals a single plain move
    let params = Parameters::new();
    let mut st = state_at(0, 0);
    let segs = draw_lsystem_substring(&chars("[F]F"), FP, 0, &mut st, &params, W, H);
    assert_eq!(segs.len(), 2);
    assert_eq!((segs[0].x1, segs[0].y1), (0, 0));
    assert_eq!((segs[1].x1, segs[1].y1), (0, 0));
    assert_eq!((segs[1].x2, segs[1].y2), (10 * FP, 0));
    assert_eq!((st.pos.x, st.pos.y), (10 * FP, 0));
    assert_eq!((st.pos.dir_x, st.pos.dir_y), (FP, 0));
    assert!(st.position_stack.is_empty());
}

#[test]
fn pop_on_empty_stack_is_a_silent_no_op() {
    let params = Parameters::new();
    let mut st = state_at(3 * FP, 4 * FP);
    let segs = draw_lsystem_substring(&chars("]"), FP, 0, &mut st, &params, W, H);
    assert!(segs.is_empty());
    assert_eq!((st.pos.x, st.pos.y), (3 * FP, 4 * FP));
    assert_eq!((st.pos.dir_x, st.pos.dir_y), (FP, 0));
    assert!(st.position_stack.is_empty());
}

#[test]
fn unknown_characters_are_ignored() {
    let params = Parameters::new();
    let mut st = state_at(0, 0);
    let segs = draw_lsystem_substring(&chars("AB"), FP, 0, &mut st, &params, W, H);
    assert!(segs.is_empty());
    assert_eq!((st.pos.x, st.pos.y), (0, 0));
}

#[test]
fn left_turn_by_a_right_angle_heads_up() {
    // turn angle 90 degrees: cosine 0, sine FP; "+F" then moves along +y
    let params = Parameters::new();
    let mut st = state_at(0, 0);
    let segs = draw_lsystem_substring(&chars("+F"), 0, FP, &mut st, &params, W, H);
    assert_eq!(segs.len(), 1);
    assert_eq!((segs[0].x2, segs[0].y2), (0, 10 * FP));
    assert_eq!((st.pos.dir_x, st.pos.dir_y), (0, FP));
}

#[test]
fn right_turn_from_the_top_edge_wraps_to_the_bottom() {
    // "-F" with a 90-degree angle heads toward negative y from y = 0: a
    // zero-length preview at the edge, a teleport to y = height, and the
    // full move drawn from there
    let params = Parameters::new();
    let mut st = state_at(0, 0);
    let segs = draw_lsystem_substring(&chars("-F"), 0, FP, &mut st, &params, W, H);
    assert_eq!(segs.len(), 2);
    assert_eq!((segs[0].x1, segs[0].y1), (0, 0));
    assert_eq!((segs[0].x2, segs[0].y2), (0, 0));
    assert_eq!((segs[1].x1, segs[1].y1), (0, H));
    assert_eq!((segs[1].x2, segs[1].y2), (0, H - 10 * FP));
    assert_eq!((st.pos.x, st.pos.y), (0, H - 10 * FP));
    assert_eq!((st.pos.dir_x, st.pos.dir_y), (0, -FP));
}

#[test]
fn segments_carry_the_pen_colour() {
    let params = Parameters::new();
    let mut st = state_at(0, 0);
    let segs = draw_lsystem_substring(&chars("F"), FP, 0, &mut st, &params, W, H);
    assert_eq!(segs[0].colour, Colour { r: 200, g: 210, b: 220, a: 255 });
    assert_eq!(st.colour, Colour { r: 200, g: 210, b: 220, a: 255 });
}

#[test]
fn candidate_movement_straight_line() {
    let m = get_next_pen_movement(0, 0, FP, 0, 10 * FP, W, H);
    assert_eq!((m.x, m.y), (10 * FP, 0));
    assert_eq!(m.length, 10 * FP);
    assert!(m.move_to_x.is_none());
    assert!(m.move_to_y.is_none());
}

#[test]
fn candidate_movement_chooses_the_nearest_edge() {
    let m = get_next_pen_movement(W - 2 * FP, 0, FP, 0, 10 * FP, W, H);
    assert_eq!(m.length, 2 * FP);
    assert_eq!((m.x, m.y), (W, 0));
    assert_eq!(m.move_to_x, Some(0));
    assert_eq!(m.move_to_y, Some(0));
}

#[test]
fn random_colours_are_bright_and_opaque() {
    let mut rng = rand::thread_rng();
    for _ in 0..50 {
        let c = rand_colour(&mut rng);
        assert!(c.r >= 128 && c.g >= 128 && c.b >= 128);
        assert_eq!(c.a, 255);
    }
}

#[test]
fn fresh_turtle_starts_at_the_origin() {
    let mut rng = rand::thread_rng();
    let t = TurtleState::new(&mut rng);
    assert_eq!((t.pos.x, t.pos.y), (0, 0));
    assert_eq!((t.pos.dir_x, t.pos.dir_y), (FP, 0));
    assert!(t.position_stack.is_empty());
    assert_eq!(t.colour.a, 255);
}
